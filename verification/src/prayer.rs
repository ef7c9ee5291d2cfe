//! The schedule engine: one day's named events, ordered by time, with the
//! queue of those still to come. Construction parses the remote lookup's
//! "HH:MM" strings, keeps only future events, and sorts; popping drains the
//! queue front into `next`; an exhausted queue is replaced wholesale by the
//! next day's schedule.

use crate::clock::{clock_str, format_clock, now_instant, MAX_DAY, SECS_PER_DAY};
use std::collections::VecDeque;
use vstd::prelude::*;

pub use crate::clock::format_time_difference;

verus! {

/// Why a schedule could not be built or popped.
#[derive(Debug, PartialEq)]
pub enum PrayerRetrievalError {
    /// A time string for the named event does not read as "HH:MM".
    Redaction(String),
    /// The queue is exhausted; the caller must refresh to the next day and
    /// ask again.
    Empty,
    /// The lookup's document does not have the expected shape, or two events
    /// share one time.
    Unknown,
}

/// One pop's outcome when the queue still held an event (the duration to
/// sleep) or a hint of how early the query came.
pub enum PrayerResults {
    Prayer(Prayer),
    NotTimeYet(i64),
}

/// One named event: `time` is an absolute instant in seconds since the
/// calendar epoch.
#[derive(Debug)]
pub struct Prayer {
    pub time: u64,
    pub name: String,
}

/// The mathematical value of a [`Prayer`].
pub struct EventModel {
    pub time: u64,
    pub name: Seq<char>,
}

impl View for Prayer {
    type V = EventModel;

    open spec fn view(&self) -> EventModel {
        EventModel { time: self.time, name: self.name@ }
    }
}

/// The mathematical value of a [`Prayers`] schedule.
pub struct ScheduleModel {
    pub city: Seq<char>,
    pub country: Seq<char>,
    pub day: u64,
    pub created: u64,
    pub next: Option<EventModel>,
    pub queue: Seq<EventModel>,
    pub all: Seq<EventModel>,
}

/// One day's schedule: the fetch parameters, the calendar day, the instant
/// of construction, the full ordered day, the queue of future events still
/// to fire, and the most recently popped event.
#[derive(Debug)]
pub struct Prayers {
    pub city: String,
    pub country: String,
    pub day: u64,
    pub created: u64,
    pub next: Option<Prayer>,
    pub prayer_que: VecDeque<Prayer>,
    pub prayers: Vec<Prayer>,
}

impl View for Prayers {
    type V = ScheduleModel;

    open spec fn view(&self) -> ScheduleModel {
        ScheduleModel {
            city: self.city@,
            country: self.country@,
            day: self.day,
            created: self.created,
            next: match self.next {
                Some(p) => Some(p@),
                None => None,
            },
            queue: models_of(self.prayer_que@),
            all: models_of(self.prayers@),
        }
    }
}

/// A decimal digit character.
pub open spec fn is_digit(c: char) -> bool {
    '0' <= c && c <= '9'
}

/// The value of a decimal digit character.
pub open spec fn digit_val(c: char) -> int {
    c as int - 48
}

/// The hour and minute denoted by a five-character "HH:MM" string, when the
/// string has that shape and both parts are in range.
pub open spec fn parse_hhmm(s: Seq<char>) -> Option<(int, int)> {
    if s.len() == 5 && is_digit(s[0]) && is_digit(s[1]) && s[2] == ':' && is_digit(s[3])
        && is_digit(s[4]) {
        let h = digit_val(s[0]) * 10 + digit_val(s[1]);
        let m = digit_val(s[3]) * 10 + digit_val(s[4]);
        if h < 24 && m < 60 {
            Some((h, m))
        } else {
            None
        }
    } else {
        None
    }
}

/// Every time string of the pairs parses.
pub open spec fn parses(pairs: Seq<(Seq<char>, Seq<char>)>) -> bool {
    forall|i: int| 0 <= i < pairs.len() ==> parse_hhmm((#[trigger] pairs[i]).1) is Some
}

/// The index of the first pair whose time string does not parse.
pub open spec fn first_unparsable(pairs: Seq<(Seq<char>, Seq<char>)>) -> int
    decreases pairs.len(),
{
    if pairs.len() == 0 {
        0
    } else if parse_hhmm(pairs[0].1) is None {
        0
    } else {
        1 + first_unparsable(pairs.drop_first())
    }
}

proof fn lemma_first_unparsable_at(pairs: Seq<(Seq<char>, Seq<char>)>, i: int)
    requires
        0 <= i < pairs.len(),
        forall|j: int| 0 <= j < i ==> parse_hhmm((#[trigger] pairs[j]).1) is Some,
        parse_hhmm(pairs[i].1) is None,
    ensures
        first_unparsable(pairs) == i,
    decreases i,
{
    if i == 0 {
    } else {
        assert(parse_hhmm(pairs[0].1) is Some);
        let tail = pairs.drop_first();
        assert(forall|j: int| 0 <= j < i - 1 ==> #[trigger] tail[j] == pairs[j + 1]);
        assert(tail[i - 1] == pairs[i]);
        lemma_first_unparsable_at(tail, i - 1);
    }
}

/// The event a (name, "HH:MM") pair denotes on calendar day `day`.
pub open spec fn pair_event(day: u64, p: (Seq<char>, Seq<char>)) -> EventModel
    recommends
        parse_hhmm(p.1) is Some,
        day <= MAX_DAY,
{
    match parse_hhmm(p.1) {
        Some(hm) => EventModel {
            name: p.0,
            time: ((day as int) * 86400 + hm.0 * 3600 + hm.1 * 60) as u64,
        },
        None => EventModel { name: p.0, time: 0 },
    }
}

/// The events the pairs denote on calendar day `day`, in pair order.
pub open spec fn events_of(day: u64, pairs: Seq<(Seq<char>, Seq<char>)>) -> Seq<EventModel> {
    pairs.map_values(|p: (Seq<char>, Seq<char>)| pair_event(day, p))
}

/// The times of the events, in order.
pub open spec fn times_of(s: Seq<EventModel>) -> Seq<u64> {
    s.map_values(|e: EventModel| e.time)
}

/// Two positions of the sequence hold the same value.
pub open spec fn seq_has_dup(ts: Seq<u64>) -> bool {
    exists|i: int, j: int| 0 <= i < j < ts.len() && ts[i] == ts[j]
}

/// Two events of the sequence share one time.
pub open spec fn has_time_dup(s: Seq<EventModel>) -> bool {
    seq_has_dup(times_of(s))
}

/// The schedule's invariant: both orderings are strictly ascending by time,
/// every queued event lies strictly after the construction instant, and the
/// queue and `next` only hold events of the day's full list.
pub open spec fn schedule_wf(m: ScheduleModel) -> bool {
    &&& forall|i: int, j: int|
        0 <= i < j < m.queue.len() ==> #[trigger] m.queue[i].time < #[trigger] m.queue[j].time
    &&& forall|i: int| 0 <= i < m.queue.len() ==> #[trigger] m.queue[i].time > m.created
    &&& forall|i: int, j: int|
        0 <= i < j < m.all.len() ==> #[trigger] m.all[i].time < #[trigger] m.all[j].time
    &&& forall|i: int| 0 <= i < m.queue.len() ==> m.all.contains(#[trigger] m.queue[i])
    &&& match m.next {
        Some(p) => m.all.contains(p),
        None => true,
    }
}

/// The models of a sequence of events.
pub open spec fn models_of(s: Seq<Prayer>) -> Seq<EventModel> {
    s.map_values(|p: Prayer| p@)
}

proof fn lemma_times_remove(s: Seq<EventModel>, k: int)
    requires
        0 <= k < s.len(),
    ensures
        times_of(s.remove(k)) =~= times_of(s).remove(k),
{
}

/// Sequences that hold the same events hold the same times.
proof fn lemma_times_multiset(s1: Seq<EventModel>, s2: Seq<EventModel>)
    requires
        s1.to_multiset() == s2.to_multiset(),
    ensures
        times_of(s1).to_multiset() == times_of(s2).to_multiset(),
    decreases s1.len(),
{
    broadcast use vstd::seq_lib::group_to_multiset_ensures;
    broadcast use vstd::multiset::group_multiset_axioms;

    s1.to_multiset_ensures();
    s2.to_multiset_ensures();
    times_of(s1).to_multiset_ensures();
    times_of(s2).to_multiset_ensures();
    if s1.len() == 0 {
        assert(s2.len() == 0);
        assert(times_of(s1) =~= Seq::<u64>::empty());
        assert(times_of(s2) =~= Seq::<u64>::empty());
    } else {
        let x = s1[0];
        assert(s1.contains(x));
        assert(s1.to_multiset().count(x) > 0);
        assert(s2.contains(x));
        let k = choose|k: int| 0 <= k < s2.len() && s2[k] == x;
        assert(s1.remove(0).to_multiset() =~= s1.to_multiset().remove(x));
        assert(s2.remove(k).to_multiset() =~= s2.to_multiset().remove(x));
        lemma_times_multiset(s1.remove(0), s2.remove(k));
        lemma_times_remove(s1, 0);
        lemma_times_remove(s2, k);
        assert(times_of(s1)[0] == x.time);
        assert(times_of(s2)[k] == x.time);
        assert(times_of(s1).remove(0).to_multiset() =~= times_of(s1).to_multiset().remove(x.time));
        assert(times_of(s2).remove(k).to_multiset() =~= times_of(s2).to_multiset().remove(x.time));
        assert(times_of(s1).contains(x.time));
        assert(times_of(s2).contains(x.time));
        let a = times_of(s1).to_multiset();
        let b = times_of(s2).to_multiset();
        assert(a.count(x.time) > 0);
        assert(b.count(x.time) > 0);
        assert(a.remove(x.time) == b.remove(x.time));
        assert forall|y: u64| a.count(y) == b.count(y) by {
            assert(a.remove(x.time).count(y) == b.remove(x.time).count(y));
        }
        assert(a =~= b);
    }
}

/// A value sits at two positions exactly when it is counted at least twice.
proof fn lemma_dup_iff_count(ts: Seq<u64>)
    ensures
        seq_has_dup(ts) <==> exists|t: u64| ts.to_multiset().count(t) >= 2,
{
    broadcast use vstd::seq_lib::group_to_multiset_ensures;
    broadcast use vstd::multiset::group_multiset_axioms;

    ts.to_multiset_ensures();
    if seq_has_dup(ts) {
        let (i, j) = choose|i: int, j: int| 0 <= i < j < ts.len() && ts[i] == ts[j];
        let t = ts[i];
        assert(ts.remove(j).to_multiset() =~= ts.to_multiset().remove(t));
        assert(ts.remove(j)[i] == t);
        assert(ts.remove(j).contains(t));
        assert(ts.remove(j).to_multiset().count(t) > 0);
        assert(ts.to_multiset().count(t) >= 2);
    }
    if exists|t: u64| ts.to_multiset().count(t) >= 2 {
        let t = choose|t: u64| ts.to_multiset().count(t) >= 2;
        assert(ts.to_multiset().count(t) > 0);
        assert(ts.contains(t));
        let i = choose|i: int| 0 <= i < ts.len() && ts[i] == t;
        assert(ts.remove(i).to_multiset() =~= ts.to_multiset().remove(t));
        assert(ts.remove(i).to_multiset().count(t) >= 1);
        assert(ts.remove(i).contains(t));
        let j0 = choose|j0: int| 0 <= j0 < ts.remove(i).len() && ts.remove(i)[j0] == t;
        let j = if j0 < i {
            j0
        } else {
            j0 + 1
        };
        assert(ts[j] == t);
        assert(i != j);
        if i < j {
            assert(seq_has_dup(ts));
        } else {
            assert(seq_has_dup(ts));
        }
    }
}

/// Event sequences with the same members either both repeat a time or
/// neither does.
proof fn lemma_dup_transfer(s1: Seq<EventModel>, s2: Seq<EventModel>)
    requires
        s1.to_multiset() == s2.to_multiset(),
    ensures
        has_time_dup(s1) == has_time_dup(s2),
{
    lemma_times_multiset(s1, s2);
    lemma_dup_iff_count(times_of(s1));
    lemma_dup_iff_count(times_of(s2));
}

/// What filtering keeps: members of the original, in their original
/// relative order, so a strictly ascending sequence filters to a strictly
/// ascending one.
proof fn lemma_filter_keeps(s: Seq<EventModel>, pred: spec_fn(EventModel) -> bool)
    ensures
        forall|a: int|
            0 <= a < s.filter(pred).len() ==> s.contains(#[trigger] s.filter(pred)[a]),
        (forall|i: int, j: int| 0 <= i < j < s.len() ==> s[i].time < s[j].time) ==> (forall|
            a: int,
            b: int,
        |
            0 <= a < b < s.filter(pred).len() ==> s.filter(pred)[a].time < s.filter(
                pred,
            )[b].time),
    decreases s.len(),
{
    reveal(Seq::filter);
    if s.len() == 0 {
    } else {
        let pre = s.drop_last();
        lemma_filter_keeps(pre, pred);
        let f = s.filter(pred);
        let fp = pre.filter(pred);
        assert(forall|a: int| 0 <= a < pre.len() ==> pre[a] == s[a]);
        assert(forall|a: int| 0 <= a < fp.len() ==> #[trigger] fp[a] == f[a]);
        assert forall|a: int| 0 <= a < f.len() implies s.contains(#[trigger] f[a]) by {
            if a < fp.len() {
                assert(pre.contains(fp[a]));
                let k = choose|k: int| 0 <= k < pre.len() && pre[k] == fp[a];
                assert(s[k] == f[a]);
            } else {
                assert(f[a] == s.last());
                assert(s[s.len() - 1] == s.last());
            }
        }
        if forall|i: int, j: int| 0 <= i < j < s.len() ==> s[i].time < s[j].time {
            assert forall|a: int, b: int| 0 <= a < b < f.len() implies f[a].time < f[b].time by {
                if b < fp.len() {
                    assert(fp[a].time < fp[b].time);
                } else {
                    assert(f[b] == s.last());
                    assert(pre.contains(fp[a]));
                    let k = choose|k: int| 0 <= k < pre.len() && pre[k] == fp[a];
                    assert(s[k].time < s[s.len() - 1].time);
                }
            }
        }
    }
}

/// Orders events ascending by time, keeping exactly the same events.
fn sort_events(v: Vec<Prayer>) -> (r: Vec<Prayer>)
    ensures
        models_of(r@).to_multiset() == models_of(v@).to_multiset(),
        r@.len() == v@.len(),
        forall|i: int, j: int|
            0 <= i < j < r@.len() ==> #[trigger] models_of(r@)[i].time <= #[trigger] models_of(
                r@,
            )[j].time,
{
    broadcast use vstd::seq_lib::group_to_multiset_ensures;
    broadcast use vstd::multiset::group_multiset_axioms;

    let ghost orig = models_of(v@);
    let mut rem = v;
    let mut out: Vec<Prayer> = Vec::new();
    proof {
        assert(models_of(out@) =~= Seq::<EventModel>::empty());
        assert(models_of(out@).to_multiset().add(models_of(rem@).to_multiset())
            =~= orig.to_multiset());
    }
    while rem.len() > 0
        invariant
            models_of(out@).to_multiset().add(models_of(rem@).to_multiset())
                == orig.to_multiset(),
            out@.len() + rem@.len() == orig.len(),
            orig == models_of(v@),
            forall|i: int, j: int|
                0 <= i < j < out@.len() ==> #[trigger] models_of(out@)[i].time
                    <= #[trigger] models_of(out@)[j].time,
            forall|i: int, j: int|
                0 <= i < out@.len() && 0 <= j < rem@.len() ==> #[trigger] models_of(
                    out@,
                )[i].time <= #[trigger] models_of(rem@)[j].time,
        decreases rem@.len(),
    {
        let mut min_i: usize = 0;
        let mut k: usize = 1;
        while k < rem.len()
            invariant
                rem@.len() > 0,
                min_i < k,
                k <= rem@.len(),
                forall|t: int|
                    0 <= t < k ==> #[trigger] models_of(rem@)[min_i as int].time <= models_of(
                        rem@,
                    )[t].time,
            decreases rem@.len() - k,
        {
            if rem[k].time < rem[min_i].time {
                min_i = k;
            }
            k = k + 1;
        }
        let ghost rem_pre = rem@;
        let ghost out_pre = out@;
        let p = rem.remove(min_i);
        let ghost pm = p@;
        out.push(p);
        proof {
            models_of(rem_pre).to_multiset_ensures();
            models_of(out_pre).to_multiset_ensures();
            assert(models_of(rem@) =~= models_of(rem_pre).remove(min_i as int));
            assert(models_of(out@) =~= models_of(out_pre).push(pm));
            assert(models_of(rem_pre)[min_i as int] == pm);
            assert(models_of(rem_pre).remove(min_i as int).to_multiset() =~= models_of(
                rem_pre,
            ).to_multiset().remove(pm));
            assert(models_of(rem_pre).contains(pm));
            assert(models_of(rem_pre).to_multiset().count(pm) > 0);
            assert(models_of(out@).to_multiset() =~= models_of(out_pre).to_multiset().insert(pm));
            let om = models_of(out_pre).to_multiset();
            let rm = models_of(rem_pre).to_multiset();
            assert forall|y: EventModel|
                om.insert(pm).add(rm.remove(pm)).count(y) == om.add(rm).count(y) by {}
            assert(om.insert(pm).add(rm.remove(pm)) =~= om.add(rm));
            assert(models_of(out@).to_multiset().add(models_of(rem@).to_multiset())
                =~= orig.to_multiset());
            assert(forall|j: int|
                0 <= j < models_of(rem@).len() ==> models_of(rem_pre).contains(
                    #[trigger] models_of(rem@)[j],
                ));
        }
    }
    proof {
        assert(models_of(rem@) =~= Seq::<EventModel>::empty());
        assert(models_of(out@).to_multiset().add(Seq::<EventModel>::empty().to_multiset())
            =~= models_of(out@).to_multiset());
    }
    out
}

/// Reads one "HH:MM" time field.
fn parse_time_field(s: &str) -> (r: Option<(u64, u64)>)
    ensures
        match r {
            Some(hm) => parse_hhmm(s@) == Some((hm.0 as int, hm.1 as int)) && hm.0 < 24 && hm.1
                < 60,
            None => parse_hhmm(s@) is None,
        },
{
    let n = s.unicode_len();
    if n != 5 {
        return None;
    }
    let c0 = s.get_char(0) as u32;
    let c1 = s.get_char(1) as u32;
    let c2 = s.get_char(2);
    let c3 = s.get_char(3) as u32;
    let c4 = s.get_char(4) as u32;
    proof {
        reveal_strlit(":");
    }
    if c2 != ':' {
        return None;
    }
    if c0 < 48 || c0 > 57 || c1 < 48 || c1 > 57 || c3 < 48 || c3 > 57 || c4 < 48 || c4 > 57 {
        return None;
    }
    let h = ((c0 - 48) * 10 + (c1 - 48)) as u64;
    let m = ((c3 - 48) * 10 + (c4 - 48)) as u64;
    if h < 24 && m < 60 {
        Some((h, m))
    } else {
        None
    }
}

/// The name-to-"HH:MM" pairs a remote lookup's document carries, a function
/// of the document text alone; nothing when the text is not JSON or lacks
/// the timings object.
pub uninterp spec fn timings_of(body: Seq<char>) -> Option<Seq<(Seq<char>, Seq<char>)>>;

/// Relies on serde_json::from_str and Value::{get, as_object, as_str}: the
/// string entries of the object under "data"."timings", in the sorted key
/// order serde_json's map iterates in; `None` when the text is not JSON,
/// the path is absent, or an entry is not a string.
#[verifier::external_body]
fn extract_timings(body: &str) -> (r: Option<Vec<(String, String)>>)
    ensures
        match r {
            Some(v) => timings_of(body@) == Some(v.deep_view()),
            None => timings_of(body@) is None,
        },
{
    let root: serde_json::Value = match serde_json::from_str(body) {
        Ok(v) => v,
        Err(_) => return None,
    };
    let obj = root.get("data")?.get("timings")?.as_object()?;
    let mut out = Vec::new();
    for (name, value) in obj {
        out.push((name.clone(), value.as_str()?.to_string()));
    }
    Some(out)
}

/// What a freshly built schedule holds: the fetch parameters and day, the
/// construction instant, no popped event yet, the parsed events sorted
/// strictly ascending as the full day, and the future events as the queue.
pub open spec fn built_ok(
    m: ScheduleModel,
    city: Seq<char>,
    country: Seq<char>,
    day: u64,
    pairs: Seq<(Seq<char>, Seq<char>)>,
    now: u64,
) -> bool {
    &&& m.city == city
    &&& m.country == country
    &&& m.day == day
    &&& m.created == now
    &&& m.next is None
    &&& m.all.to_multiset() == events_of(day, pairs).to_multiset()
    &&& m.queue == m.all.filter(|e: EventModel| e.time > now)
    &&& schedule_wf(m)
}

/// Which error a build reports, and on which inputs.
pub open spec fn build_err(
    pairs: Seq<(Seq<char>, Seq<char>)>,
    day: u64,
    e: PrayerRetrievalError,
) -> bool {
    match e {
        PrayerRetrievalError::Redaction(n) => !parses(pairs) && n@ == pairs[first_unparsable(
            pairs,
        )].0,
        PrayerRetrievalError::Unknown => parses(pairs) && has_time_dup(events_of(day, pairs)),
        PrayerRetrievalError::Empty => false,
    }
}

impl Prayers {
    /// Builds one day's schedule from (name, "HH:MM") pairs: parses every
    /// time on calendar day `day`, refuses a pair that does not parse or two
    /// events on one instant, sorts the day ascending, and queues the events
    /// strictly after `now`.
    pub fn build(
        city: String,
        country: String,
        day: u64,
        timings: Vec<(String, String)>,
        now: u64,
    ) -> (r: Result<Prayers, PrayerRetrievalError>)
        requires
            day <= MAX_DAY,
        ensures
            r is Ok <==> parses(timings.deep_view()) && !has_time_dup(
                events_of(day, timings.deep_view()),
            ),
            match r {
                Ok(s) => built_ok(s@, city@, country@, day, timings.deep_view(), now),
                Err(e) => build_err(timings.deep_view(), day, e),
            },
    {
        let ghost dv = timings.deep_view();
        proof {
            assert(dv.len() == timings@.len());
        }
        let mut events: Vec<Prayer> = Vec::new();
        let mut idx: usize = 0;
        proof {
            assert(models_of(events@) =~= events_of(day, dv.take(0)));
        }
        while idx < timings.len()
            invariant
                idx <= timings@.len(),
                dv == timings.deep_view(),
                dv.len() == timings@.len(),
                day <= MAX_DAY,
                forall|j: int| 0 <= j < idx ==> parse_hhmm((#[trigger] dv[j]).1) is Some,
                models_of(events@) == events_of(day, dv.take(idx as int)),
            decreases timings@.len() - idx,
        {
            let pair = &timings[idx];
            proof {
                assert(dv[idx as int] == (timings@[idx as int].0@, timings@[idx as int].1@));
            }
            match parse_time_field(pair.1.as_str()) {
                Some((h, m)) => {
                    let t = day * 86400 + h * 3600 + m * 60;
                    let ghost events_pre = events@;
                    events.push(Prayer { name: pair.0.clone(), time: t });
                    proof {
                        assert(models_of(events@) =~= models_of(events_pre).push(
                            EventModel { time: t, name: dv[idx as int].0 },
                        ));
                        assert(pair_event(day, dv[idx as int]) == (EventModel {
                            time: t,
                            name: dv[idx as int].0,
                        }));
                        assert(models_of(events@) =~= events_of(day, dv.take(idx as int + 1)));
                    }
                },
                None => {
                    proof {
                        lemma_first_unparsable_at(dv, idx as int);
                        assert(!parses(dv));
                    }
                    return Err(PrayerRetrievalError::Redaction(pair.0.clone()));
                },
            }
            idx = idx + 1;
        }
        proof {
            assert(dv.take(timings@.len() as int) =~= dv);
            assert(parses(dv));
        }
        let sorted = sort_events(events);
        let ghost sm = models_of(sorted@);
        let mut i: usize = 1;
        while i < sorted.len()
            invariant
                1 <= i,
                dv == timings.deep_view(),
                sm == models_of(sorted@),
                sm.to_multiset() == events_of(day, dv).to_multiset(),
                parses(dv),
                forall|a: int| 1 <= a < i && a < sm.len() ==> (#[trigger] sm[a]).time != sm[a
                    - 1].time,
            decreases sorted@.len() - i,
        {
            if sorted[i].time == sorted[i - 1].time {
                proof {
                    assert(times_of(sm)[i - 1] == times_of(sm)[i as int]);
                    assert(has_time_dup(sm));
                    lemma_dup_transfer(sm, events_of(day, dv));
                }
                return Err(PrayerRetrievalError::Unknown);
            }
            i = i + 1;
        }
        proof {
            assert forall|a: int, b: int| 0 <= a < b < sm.len() implies sm[a].time
                < sm[b].time by {
                assert(sm[a].time <= sm[a + 1].time);
                assert(sm[a].time != sm[a + 1].time);
                assert(sm[a + 1].time <= sm[b].time);
            }
            assert(!has_time_dup(sm));
            lemma_dup_transfer(sm, events_of(day, dv));
        }
        let mut que: VecDeque<Prayer> = VecDeque::new();
        let ghost pred = |e: EventModel| e.time > now;
        let mut k: usize = 0;
        proof {
            reveal(Seq::filter);
            assert(models_of(que@) =~= sm.take(0).filter(pred));
        }
        while k < sorted.len()
            invariant
                k <= sorted@.len(),
                sm == models_of(sorted@),
                models_of(que@) == sm.take(k as int).filter(pred),
                pred == (|e: EventModel| e.time > now),
            decreases sorted@.len() - k,
        {
            let ghost que_pre = que@;
            if sorted[k].time > now {
                que.push_back(Prayer { name: sorted[k].name.clone(), time: sorted[k].time });
            }
            proof {
                reveal(Seq::filter);
                let t1 = sm.take(k as int + 1);
                assert(t1.drop_last() =~= sm.take(k as int));
                assert(t1.last() == sm[k as int]);
                if sm[k as int].time > now {
                    assert(models_of(que@) =~= models_of(que_pre).push(sm[k as int]));
                } else {
                    assert(models_of(que@) =~= models_of(que_pre));
                }
                assert(models_of(que@) =~= sm.take(k as int + 1).filter(pred));
            }
            k = k + 1;
        }
        proof {
            assert(sm.take(sorted@.len() as int) =~= sm);
        }
        let result = Prayers {
            city,
            country,
            day,
            created: now,
            next: None,
            prayer_que: que,
            prayers: sorted,
        };
        proof {
            broadcast use vstd::seq_lib::group_filter_ensures;

            lemma_filter_keeps(sm, pred);
            assert(result@.queue == sm.filter(pred));
            assert(forall|a: int|
                0 <= a < result@.queue.len() ==> (#[trigger] result@.queue[a]).time > now);
            assert(schedule_wf(result@));
        }
        Ok(result)
    }

    /// Builds one day's schedule from the remote lookup's document text:
    /// the pairs under "data"."timings" are built as in [`Prayers::build`];
    /// a document without them is refused as malformed.
    pub fn new_with_body(
        city: String,
        country: String,
        day: u64,
        body: &str,
        now: u64,
    ) -> (r: Result<Prayers, PrayerRetrievalError>)
        requires
            day <= MAX_DAY,
        ensures
            match timings_of(body@) {
                Some(pairs) => {
                    &&& (r is Ok <==> parses(pairs) && !has_time_dup(events_of(day, pairs)))
                    &&& match r {
                        Ok(s) => built_ok(s@, city@, country@, day, pairs, now),
                        Err(e) => build_err(pairs, day, e),
                    }
                },
                None => r == Err::<Prayers, PrayerRetrievalError>(PrayerRetrievalError::Unknown),
            },
    {
        match extract_timings(body) {
            Some(pairs) => Self::build(city, country, day, pairs, now),
            None => Err(PrayerRetrievalError::Unknown),
        }
    }

    /// Pops the queue front into `next` and returns how long to sleep until
    /// it fires, clamped at zero against clock drift. On an exhausted queue
    /// it leaves `next` unset and returns `Empty`: the caller must refresh
    /// to the following day and call again — the two-step contract; a
    /// refresh never manufactures a duration itself.
    pub fn get_next_prayer_duration(&mut self) -> (r: Result<u64, PrayerRetrievalError>)
        ensures
            old(self)@.queue.len() > 0 ==> {
                &&& final(self)@ == (ScheduleModel {
                    next: Some(old(self)@.queue[0]),
                    queue: old(self)@.queue.drop_first(),
                    ..old(self)@
                })
                &&& exists|now: u64|
                    r == Ok::<u64, PrayerRetrievalError>(
                        #[trigger] clamped_duration(now, old(self)@.queue[0].time),
                    )
            },
            old(self)@.queue.len() == 0 ==> {
                &&& final(self)@ == (ScheduleModel { next: None, ..old(self)@ })
                &&& r == Err::<u64, PrayerRetrievalError>(PrayerRetrievalError::Empty)
            },
            schedule_wf(old(self)@) ==> schedule_wf(final(self)@),
    {
        let now = now_instant();
        let ghost pre = self@;
        self.next = self.prayer_que.pop_front();
        proof {
            if pre.queue.len() > 0 {
                assert(models_of(self.prayer_que@) =~= pre.queue.drop_first());
            } else {
                assert(models_of(self.prayer_que@) =~= pre.queue);
            }
            if schedule_wf(pre) {
                assert forall|i: int, j: int| 0 <= i < j < self@.queue.len() implies (
                #[trigger] self@.queue[i]).time < (#[trigger] self@.queue[j]).time by {
                    assert(self@.queue[i] == pre.queue[i + 1]);
                    assert(self@.queue[j] == pre.queue[j + 1]);
                }
                assert(forall|i: int|
                    0 <= i < self@.queue.len() ==> #[trigger] self@.queue[i] == pre.queue[i + 1]);
                assert(schedule_wf(self@));
            }
        }
        match &self.next {
            Some(p) => {
                let d = if now <= p.time {
                    p.time - now
                } else {
                    0
                };
                proof {
                    assert(d == clamped_duration(now, pre.queue[0].time));
                }
                Ok(d)
            },
            None => Err(PrayerRetrievalError::Empty),
        }
    }

    /// Replaces this schedule wholesale by one for calendar day `day`,
    /// built from the lookup document `body` exactly as
    /// [`Prayers::new_with_body`] builds it; the fetch parameters carry
    /// over unchanged. On any error the old schedule stands untouched, so
    /// readers only ever see one complete day.
    pub fn refresh(&mut self, day: u64, body: &str, now: u64) -> (r: Result<
        (),
        PrayerRetrievalError,
    >)
        requires
            day <= MAX_DAY,
        ensures
            match timings_of(body@) {
                Some(pairs) => {
                    &&& (r is Ok <==> parses(pairs) && !has_time_dup(events_of(day, pairs)))
                    &&& match r {
                        Ok(u) => built_ok(
                            final(self)@,
                            old(self)@.city,
                            old(self)@.country,
                            day,
                            pairs,
                            now,
                        ),
                        Err(e) => build_err(pairs, day, e) && final(self)@ == old(self)@,
                    }
                },
                None => r == Err::<(), PrayerRetrievalError>(PrayerRetrievalError::Unknown)
                    && final(self)@ == old(self)@,
            },
    {
        let city = self.city.clone();
        let country = self.country.clone();
        match Self::new_with_body(city, country, day, body, now) {
            Ok(s) => {
                *self = s;
                Ok(())
            },
            Err(e) => Err(e),
        }
    }

    /// Renders the whole day, past and future, as (name, 12-hour clock
    /// time) pairs in day order; the schedule itself is untouched.
    pub fn build_full_day_view(&self) -> (r: Vec<(String, String)>)
        ensures
            r.deep_view() == day_view(self@),
    {
        let mut out: Vec<(String, String)> = Vec::new();
        let mut i: usize = 0;
        while i < self.prayers.len()
            invariant
                i <= self@.all.len(),
                self@.all.len() == self.prayers@.len(),
                out.deep_view().len() == i,
                forall|j: int|
                    0 <= j < i ==> #[trigger] out.deep_view()[j] == (
                    self@.all[j].name,
                    clock_str(self@.all[j].time),
                ),
            decreases self.prayers@.len() - i,
        {
            let ghost out_pre = out.deep_view();
            let name = self.prayers[i].name.clone();
            let shown = format_clock(self.prayers[i].time);
            let ghost nm = name@;
            let ghost sh = shown@;
            out.push((name, shown));
            proof {
                assert(out.deep_view() =~= out_pre.push((nm, sh)));
                assert(self.prayers@[i as int]@ == self@.all[i as int]);
            }
            i = i + 1;
        }
        proof {
            assert(out.deep_view() =~= day_view(self@));
        }
        out
    }
}

/// The non-negative span from `now` to `t`.
pub open spec fn clamped_duration(now: u64, t: u64) -> u64 {
    if now <= t {
        (t - now) as u64
    } else {
        0
    }
}

/// The full day as (name, 12-hour clock time) pairs, in day order.
pub open spec fn day_view(m: ScheduleModel) -> Seq<(Seq<char>, Seq<char>)> {
    m.all.map_values(|e: EventModel| (e.name, clock_str(e.time)))
}

/// The calendar day after the one of instant `now`: the day a refresh
/// rebuilds the schedule for when the queue empties.
pub fn next_day(now: u64) -> (r: u64)
    requires
        now / 86400 < MAX_DAY,
    ensures
        r == now / 86400 + 1,
        r <= MAX_DAY,
{
    now / SECS_PER_DAY + 1
}

/// Popping drains the queue in ascending order: in a well-formed schedule
/// the queue front is strictly the earliest, so each popped event precedes
/// everything that remains queued.
pub proof fn lemma_pop_drains_ascending(m: ScheduleModel, k: int)
    requires
        schedule_wf(m),
        1 <= k < m.queue.len(),
    ensures
        m.queue[0].time < m.queue[k].time,
{
}

/// Every constructed schedule is well-formed: its queue is strictly
/// ascending by time and every queued event lies strictly after the
/// construction instant.
pub proof fn lemma_built_schedule_wf(
    m: ScheduleModel,
    city: Seq<char>,
    country: Seq<char>,
    day: u64,
    pairs: Seq<(Seq<char>, Seq<char>)>,
    now: u64,
)
    requires
        built_ok(m, city, country, day, pairs, now),
    ensures
        schedule_wf(m),
        forall|i: int, j: int|
            0 <= i < j < m.queue.len() ==> (#[trigger] m.queue[i]).time < (
            #[trigger] m.queue[j]).time,
        forall|i: int| 0 <= i < m.queue.len() ==> (#[trigger] m.queue[i]).time > now,
{
}

} // verus!
