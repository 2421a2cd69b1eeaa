use klattsch::schedule::{Playhead, Schedule, ScheduleEvent};

fn ev(at_sample: u64, target: u8) -> ScheduleEvent<u8> {
    ScheduleEvent {
        at_sample,
        target,
        transition_samples: 1,
    }
}

#[test]
fn empty_schedule_has_no_events() {
    let s: Schedule<u8> = Schedule::empty(48_000);
    assert_eq!(s.events().len(), 0);
    assert_eq!(s.last_event_sample(), 0);
    assert_eq!(s.sample_rate, 48_000);
}

#[test]
fn from_sample_events_sorts_by_time() {
    let s = Schedule::from_sample_events(48_000, vec![ev(4800, 1), ev(0, 2)]);
    assert_eq!(s.events()[0].at_sample, 0);
    assert_eq!(s.events()[1].at_sample, 4800);
    assert_eq!(s.last_event_sample(), 4800);
    assert_eq!(s.sample_rate, 48_000);
    assert_eq!(s.sample_rate(), 48_000);
}

#[test]
fn sort_is_stable_for_equal_times() {
    let s = Schedule::from_sample_events(
        8_000,
        vec![ev(5, 1), ev(2, 2), ev(5, 3), ev(2, 4), ev(9, 5), ev(5, 6)],
    );
    let order: Vec<(u64, u8)> = s.events().iter().map(|e| (e.at_sample, e.target)).collect();
    assert_eq!(
        order,
        vec![(2, 2), (2, 4), (5, 1), (5, 3), (5, 6), (9, 5)]
    );
}

#[test]
fn playhead_fires_each_event_once_when_due() {
    let mut p = Playhead::new();
    p.queue(Schedule::from_sample_events(
        48_000,
        vec![ev(2, 20), ev(0, 0), ev(2, 21)],
    ));
    assert_eq!(p.pop_due().map(|e| e.target), Some(0));
    assert_eq!(p.pop_due(), None);
    p.advance();
    assert_eq!(p.pop_due(), None);
    p.advance();
    assert_eq!(p.samples_rendered(), 2);
    assert_eq!(p.pop_due().map(|e| e.target), Some(20));
    assert_eq!(p.pop_due().map(|e| e.target), Some(21));
    assert_eq!(p.pop_due(), None);
    p.advance();
    assert_eq!(p.pop_due(), None);
}

#[test]
fn playhead_clear_drops_the_schedule() {
    let mut p = Playhead::new();
    p.queue(Schedule::from_sample_events(48_000, vec![ev(0, 1)]));
    p.advance();
    p.clear();
    assert_eq!(p.samples_rendered(), 0);
    assert_eq!(p.pop_due(), None);
}

#[test]
fn queue_rewinds_the_clock() {
    let mut p: Playhead<u8> = Playhead::new();
    p.advance();
    p.advance();
    p.queue(Schedule::empty(48_000));
    assert_eq!(p.samples_rendered(), 0);
    assert_eq!(p.pop_due(), None);
}
