//! Time-stamped parameter events, sorted by the sample at which they fire.
//! The events carry a parameter update of type `T` that the synthesizer
//! applies; this module only orders them.

use vstd::prelude::*;

verus! {

/// One entry in a [`Schedule`]: at sample `at_sample`, begin a linear ramp
/// of `transition_samples` samples toward the fields in `target`.
#[derive(Clone, Copy, Debug, PartialEq)]
pub struct ScheduleEvent<T> {
    /// Absolute sample index at which this event fires.
    pub at_sample: u64,
    /// Sparse parameter overrides.
    pub target: T,
    /// Number of samples over which to ramp from current to target.
    pub transition_samples: u32,
}

/// Time-sorted schedule of events bound to a specific sample rate.
#[derive(Clone, Debug)]
pub struct Schedule<T> {
    events: Vec<ScheduleEvent<T>>,
    /// Sample rate the events were quantized at.
    pub sample_rate: u32,
}

/// Every event fires no earlier than the ones before it.
pub open spec fn sorted_by_time<T>(s: Seq<ScheduleEvent<T>>) -> bool {
    forall|i: int, j: int| 0 <= i < j < s.len() ==> (#[trigger] s[i]).at_sample <= (#[trigger] s[j]).at_sample
}

/// The events of `s` that fire at sample `t`, in their order in `s`.
pub open spec fn firing_at<T>(s: Seq<ScheduleEvent<T>>, t: u64) -> Seq<ScheduleEvent<T>> {
    s.filter(fires_at(t))
}

/// Whether an event fires at sample `t`.
pub open spec fn fires_at<T>(t: u64) -> spec_fn(ScheduleEvent<T>) -> bool {
    |e: ScheduleEvent<T>| e.at_sample == t
}

/// Where an event firing at `at` goes into the sorted `s`: after every
/// event firing at or before `at`, before the later ones.
pub open spec fn insert_point<T>(s: Seq<ScheduleEvent<T>>, at: u64) -> int
    decreases s.len(),
{
    if s.len() == 0 || s.last().at_sample <= at {
        s.len() as int
    } else {
        insert_point(s.drop_last(), at)
    }
}

/// The events of `s` ordered by firing time; events firing at the same
/// sample keep their order (a stable insertion sort).
pub open spec fn sort_by_time<T>(s: Seq<ScheduleEvent<T>>) -> Seq<ScheduleEvent<T>>
    decreases s.len(),
{
    if s.len() == 0 {
        s
    } else {
        let sorted = sort_by_time(s.drop_last());
        sorted.insert(insert_point(sorted, s.last().at_sample), s.last())
    }
}

/// In a sorted sequence, the insert point splits the events into those
/// firing at or before `at` and those firing after it.
proof fn lemma_insert_point<T>(s: Seq<ScheduleEvent<T>>, at: u64)
    requires
        sorted_by_time(s),
    ensures
        0 <= insert_point(s, at) <= s.len(),
        forall|j: int| 0 <= j < insert_point(s, at) ==> (#[trigger] s[j]).at_sample <= at,
        forall|j: int| insert_point(s, at) <= j < s.len() ==> (#[trigger] s[j]).at_sample > at,
    decreases s.len(),
{
    if s.len() != 0 && s.last().at_sample > at {
        let r = s.drop_last();
        assert(sorted_by_time(r)) by {
            assert forall|i: int, j: int| 0 <= i < j < r.len() implies (#[trigger] r[i]).at_sample
                <= (#[trigger] r[j]).at_sample by {
                assert(r[i] == s[i] && r[j] == s[j]);
            }
        }
        lemma_insert_point(r, at);
        assert forall|j: int| 0 <= j < insert_point(s, at) implies (#[trigger] s[j]).at_sample <= at by {
            assert(s[j] == r[j]);
        }
        assert forall|j: int| insert_point(s, at) <= j < s.len() implies (#[trigger] s[j]).at_sample
            > at by {
            if j < s.len() - 1 {
                assert(s[j] == r[j]);
            }
        }
    } else if s.len() != 0 {
        assert forall|j: int| 0 <= j < insert_point(s, at) implies (#[trigger] s[j]).at_sample <= at by {
            assert(s[s.len() - 1].at_sample <= at);
        }
    }
}

/// Inserting at the insert point keeps a sorted sequence sorted, adds the
/// event to the events firing at its own sample as the last of them, and
/// leaves the events firing at every other sample as they were.
proof fn lemma_insert_at_point<T>(s: Seq<ScheduleEvent<T>>, e: ScheduleEvent<T>)
    requires
        sorted_by_time(s),
    ensures
        sorted_by_time(s.insert(insert_point(s, e.at_sample), e)),
        forall|t: u64| #[trigger] firing_at(s.insert(insert_point(s, e.at_sample), e), t)
            == firing_at(s.push(e), t),
{
    let p = insert_point(s, e.at_sample);
    lemma_insert_point(s, e.at_sample);
    let r = s.insert(p, e);
    assert forall|i: int, j: int| 0 <= i < j < r.len() implies (#[trigger] r[i]).at_sample
        <= (#[trigger] r[j]).at_sample by {
        if i < p && j > p {
            assert(r[i] == s[i] && r[j] == s[j - 1]);
        } else if j < p {
            assert(r[i] == s[i] && r[j] == s[j]);
        } else if i > p {
            assert(r[i] == s[i - 1] && r[j] == s[j - 1]);
        }
    }
    assert forall|t: u64| #[trigger] firing_at(r, t) == firing_at(s.push(e), t) by {
        let pred = fires_at::<T>(t);
        let front = s.take(p);
        let back = s.skip(p);
        assert(s == front + back);
        assert(r == front + seq![e] + back);
        Seq::filter_distributes_over_add(front, back, pred);
        Seq::filter_distributes_over_add(front + seq![e], back, pred);
        Seq::filter_distributes_over_add(front, seq![e], pred);
        s.lemma_filter_push(e, pred);
        assert(seq![e].filter(pred) == (if pred(e) { seq![e] } else { Seq::empty() })) by {
            Seq::<ScheduleEvent<T>>::empty().lemma_filter_push(e, pred);
            assert(Seq::<ScheduleEvent<T>>::empty().push(e) == seq![e]);
            assert(Seq::<ScheduleEvent<T>>::empty().filter(pred) =~= Seq::empty()) by {
                reveal(Seq::filter);
            }
        }
        if pred(e) {
            assert(back.filter(pred).len() == 0) by {
                back.lemma_all_neg_filter_empty(pred);
            }
            assert(back.filter(pred) =~= Seq::empty());
            assert(front.filter(pred) + back.filter(pred) =~= front.filter(pred));
        } else {
            assert(front.filter(pred) + seq![e].filter(pred) =~= front.filter(pred));
        }
    }
}

/// Sorting by firing time gives a sequence in time order that holds, for
/// every sample, exactly the events firing there, in their original order.
pub proof fn sort_by_time_is_stable_sort<T>(s: Seq<ScheduleEvent<T>>)
    ensures
        sorted_by_time(sort_by_time(s)),
        sort_by_time(s).len() == s.len(),
        forall|t: u64| #[trigger] firing_at(sort_by_time(s), t) == firing_at(s, t),
    decreases s.len(),
{
    if s.len() != 0 {
        let rest = s.drop_last();
        sort_by_time_is_stable_sort(rest);
        let sorted = sort_by_time(rest);
        lemma_insert_point(sorted, s.last().at_sample);
        lemma_insert_at_point(sorted, s.last());
        assert(rest.push(s.last()) == s);
        assert forall|t: u64| #[trigger] firing_at(sort_by_time(s), t) == firing_at(s, t) by {
            let pred = fires_at::<T>(t);
            let last = s.last();
            assert(sort_by_time(s) == sorted.insert(insert_point(sorted, last.at_sample), last));
            assert(firing_at(sort_by_time(s), t) == firing_at(sorted.push(last), t));
            assert(firing_at(sorted, t) == firing_at(rest, t));
            sorted.lemma_filter_push(last, pred);
            rest.lemma_filter_push(last, pred);
        }
    }
}

impl<T> View for Schedule<T> {
    type V = Seq<ScheduleEvent<T>>;

    /// The events, in firing order.
    closed spec fn view(&self) -> Seq<ScheduleEvent<T>> {
        self.events@
    }
}

impl<T> Schedule<T> {
    /// The sample rate the events were quantized at.
    pub closed spec fn spec_sample_rate(&self) -> u32 {
        self.sample_rate
    }

    /// The sample rate the events were quantized at.
    pub fn sample_rate(&self) -> (r: u32)
        ensures
            r == self.spec_sample_rate(),
    {
        self.sample_rate
    }

    /// Empty schedule at the given sample rate.
    pub fn empty(sample_rate: u32) -> (r: Self)
        ensures
            r@ == Seq::<ScheduleEvent<T>>::empty(),
            r.spec_sample_rate() == sample_rate,
    {
        Schedule { events: Vec::new(), sample_rate }
    }

    /// Read-only access to the events.
    pub fn events(&self) -> (r: &[ScheduleEvent<T>])
        ensures
            r@ == self@,
    {
        self.events.as_slice()
    }

    /// Sample index of the last event, or 0 if empty.
    pub fn last_event_sample(&self) -> (r: u64)
        ensures
            r == (if self@.len() == 0 { 0 } else { self@.last().at_sample }),
    {
        let n = self.events.len();
        if n == 0 {
            0
        } else {
            self.events[n - 1].at_sample
        }
    }
}

impl<T: Copy> Schedule<T> {
    /// Construct from events already in samples. Sorts by `at_sample`,
    /// keeping events that fire at the same sample in their given order.
    pub fn from_sample_events(sample_rate: u32, events: Vec<ScheduleEvent<T>>) -> (r: Self)
        ensures
            r@ == sort_by_time(events@),
            sorted_by_time(r@),
            r.spec_sample_rate() == sample_rate,
    {
        let mut sorted: Vec<ScheduleEvent<T>> = Vec::new();
        let n = events.len();
        let mut i: usize = 0;
        while i < n
            invariant
                n == events.len(),
                i <= n,
                sorted@ == sort_by_time(events@.take(i as int)),
                sorted_by_time(sorted@),
            decreases n - i,
        {
            let e = events[i];
            let at = e.at_sample;
            proof {
                lemma_insert_point(sorted@, at);
            }
            let mut p: usize = sorted.len();
            while p > 0 && sorted[p - 1].at_sample > at
                invariant
                    p <= sorted.len(),
                    sorted_by_time(sorted@),
                    insert_point(sorted@, at) <= p,
                    forall|j: int| p <= j < sorted.len() ==> (#[trigger] sorted@[j]).at_sample > at,
                    forall|j: int| 0 <= j < insert_point(sorted@, at) ==> (#[trigger] sorted@[j]).at_sample <= at,
                    forall|j: int| insert_point(sorted@, at) <= j < sorted.len() ==> (#[trigger] sorted@[j]).at_sample > at,
                decreases p,
            {
                p = p - 1;
            }
            proof {
                let next = events@.take(i + 1);
                assert(next.drop_last() == events@.take(i as int));
                assert(next.last() == e);
                lemma_insert_at_point(sorted@, e);
            }
            sorted.insert(p, e);
            i = i + 1;
        }
        proof {
            assert(events@.take(n as int) == events@);
        }
        Schedule { events: sorted, sample_rate }
    }
}

/// The read position of a synthesizer in its queued schedule: the
/// schedule (if any), the index of the next event to fire, and the sample
/// clock counted from when the schedule was queued.
pub struct Playhead<T> {
    schedule: Option<Schedule<T>>,
    next: usize,
    clock: u64,
}

impl<T> Playhead<T> {
    /// The queued events; none when no schedule is queued.
    pub closed spec fn events(&self) -> Seq<ScheduleEvent<T>> {
        match self.schedule {
            Some(s) => s@,
            None => Seq::empty(),
        }
    }

    /// How many of the queued events have fired.
    pub closed spec fn fired(&self) -> int {
        self.next as int
    }

    /// Samples rendered since the schedule was queued.
    pub closed spec fn clock(&self) -> u64 {
        self.clock
    }

    /// The fired events are a prefix of the schedule, and none of them
    /// fired before its sample.
    pub open spec fn wf(&self) -> bool {
        &&& 0 <= self.fired() <= self.events().len()
        &&& forall|j: int| 0 <= j < self.fired() ==> (#[trigger] self.events()[j]).at_sample <= self.clock()
    }

    /// No schedule, clock at zero.
    pub fn new() -> (r: Self)
        ensures
            r.wf(),
            r.events() == Seq::<ScheduleEvent<T>>::empty(),
            r.fired() == 0,
            r.clock() == 0,
    {
        Playhead { schedule: None, next: 0, clock: 0 }
    }

    /// Replace any pending schedule and rewind the clock to 0.
    pub fn queue(&mut self, schedule: Schedule<T>)
        ensures
            final(self).wf(),
            final(self).events() == schedule@,
            final(self).fired() == 0,
            final(self).clock() == 0,
    {
        self.schedule = Some(schedule);
        self.next = 0;
        self.clock = 0;
    }

    /// Drop the schedule and rewind the clock to 0.
    pub fn clear(&mut self)
        ensures
            final(self).wf(),
            final(self).events() == Seq::<ScheduleEvent<T>>::empty(),
            final(self).fired() == 0,
            final(self).clock() == 0,
    {
        self.schedule = None;
        self.next = 0;
        self.clock = 0;
    }

    /// Samples rendered since the schedule was queued.
    pub fn samples_rendered(&self) -> (r: u64)
        ensures
            r == self.clock(),
    {
        self.clock
    }

    /// Count one more rendered sample.
    pub fn advance(&mut self)
        requires
            old(self).wf(),
            old(self).clock() < u64::MAX,
        ensures
            final(self).wf(),
            final(self).events() == old(self).events(),
            final(self).fired() == old(self).fired(),
            final(self).clock() == old(self).clock() + 1,
    {
        self.clock = self.clock + 1;
    }
}

impl<T: Copy> Playhead<T> {
    /// The next event if it is due at the current sample, which then counts
    /// as fired; `None` when no schedule is queued, all its events have
    /// fired, or the next one lies in the future.
    pub fn pop_due(&mut self) -> (r: Option<ScheduleEvent<T>>)
        requires
            old(self).wf(),
        ensures
            final(self).wf(),
            final(self).events() == old(self).events(),
            final(self).clock() == old(self).clock(),
            ({
                let evs = old(self).events();
                let i = old(self).fired();
                if i < evs.len() && evs[i].at_sample <= old(self).clock() {
                    r == Some(evs[i]) && final(self).fired() == i + 1
                } else {
                    r is None && final(self).fired() == i
                }
            }),
    {
        match &self.schedule {
            None => None,
            Some(s) => {
                if self.next < s.events.len() {
                    let e = s.events[self.next];
                    if e.at_sample <= self.clock {
                        self.next = self.next + 1;
                        Some(e)
                    } else {
                        None
                    }
                } else {
                    None
                }
            },
        }
    }
}

/// Once a playhead over a time-sorted schedule has no due event left, the
/// events that have fired are exactly those whose sample has been reached:
/// none fired early and none that is due was skipped.
pub proof fn drained_playhead_fired_exactly_the_due_events<T>(p: Playhead<T>)
    requires
        p.wf(),
        sorted_by_time(p.events()),
        p.fired() == p.events().len() || p.events()[p.fired()].at_sample > p.clock(),
    ensures
        forall|j: int| 0 <= j < p.events().len() ==>
            (j < p.fired() <==> (#[trigger] p.events()[j]).at_sample <= p.clock()),
{
    assert forall|j: int| 0 <= j < p.events().len() implies (j < p.fired() <==> (
    #[trigger] p.events()[j]).at_sample <= p.clock()) by {
        if j >= p.fired() {
            assert(p.events()[p.fired()].at_sample <= p.events()[j].at_sample);
        }
    }
}

} // verus!
