use klattsch::live::{event_channel, SynthEvent};

#[test]
fn try_send_succeeds_until_full() {
    let (mut tx, mut _rx) = event_channel::<SynthEvent<u32>>(4);
    for _ in 0..4 {
        assert!(tx
            .try_send(SynthEvent::SetTarget {
                target: 0,
                transition_samples: 1,
            })
            .is_ok());
    }
    let result = tx.try_send(SynthEvent::SetTarget {
        target: 0,
        transition_samples: 1,
    });
    assert!(result.is_err(), "5th send should fail (capacity 4)");
}

#[test]
fn a_full_ring_hands_the_event_back() {
    let (mut tx, _rx) = event_channel::<u32>(1);
    assert_eq!(tx.try_send(7), Ok(()));
    assert_eq!(tx.try_send(8), Err(8));
    assert_eq!(tx.slots_free(), 0);
}

#[test]
fn events_arrive_in_order() {
    let (mut tx, mut rx) = event_channel::<u32>(8);
    assert_eq!(tx.slots_free(), 8);
    tx.try_send(1).unwrap();
    tx.try_send(2).unwrap();
    assert_eq!(rx.try_recv(), Some(1));
    assert_eq!(rx.try_recv(), Some(2));
    assert_eq!(rx.try_recv(), None);
    assert_eq!(tx.slots_free(), 8);
}
