use nk::ebus::{callback_was_slow, worker_should_yield, BoundedQueue, Ebus, Event, QUEUE_CAPACITY};

#[test]
fn queue_is_first_in_first_out_and_bounded() {
    let mut q = BoundedQueue::new();
    assert_eq!(q.dequeue(), None);
    for i in 0..QUEUE_CAPACITY {
        assert_eq!(q.enqueue(Event { id: 1, data: i }), Ok(()));
    }
    assert_eq!(q.enqueue(Event { id: 2, data: 0 }), Err(()));
    assert_eq!(q.dequeue(), Some(Event { id: 1, data: 0 }));
    assert_eq!(q.dequeue(), Some(Event { id: 1, data: 1 }));
    assert_eq!(q.enqueue(Event { id: 3, data: 7 }), Ok(()));
}

#[test]
fn subscribers_are_called_in_order_until_they_unsubscribe() {
    let mut b = Ebus::new(4);
    assert_eq!(b.unsubscribe(5, 0x100), Err(()));
    b.subscribe(5, 0x100).unwrap();
    b.subscribe(6, 0x300).unwrap();
    b.subscribe(5, 0x200).unwrap();
    b.subscribe(5, 0x100).unwrap();
    assert_eq!(b.callbacks(5), vec![0x100, 0x200, 0x100]);
    assert_eq!(b.callbacks(7), Vec::<u64>::new());
    assert_eq!(b.unsubscribe(5, 0x100), Ok(()));
    assert_eq!(b.callbacks(5), vec![0x200]);
    assert_eq!(b.callbacks(6), vec![0x300]);
    assert_eq!(b.unsubscribe(5, 0x999), Ok(()));
    assert_eq!(b.unsubscribe(5, 0x200), Ok(()));
    assert_eq!(b.unsubscribe(5, 0x200), Err(()));
}

#[test]
fn events_go_to_the_queue_they_are_published_on() {
    let mut b = Ebus::new(4);
    assert_eq!(b.num_cpus(), 4);
    assert_eq!(b.publish(9, 1, None), Ok(()));
    assert_eq!(b.publish(9, 2, Some(3)), Ok(()));
    assert_eq!(b.publish(9, 3, Some(64)), Err(()));
    assert_eq!(b.publish(9, 4, Some(4)), Err(()));
    assert_eq!(b.next_event(Some(2)), None);
    assert_eq!(b.next_event(Some(3)), Some(Event { id: 9, data: 2 }));
    assert_eq!(b.next_event(None), Some(Event { id: 9, data: 1 }));
    assert_eq!(b.next_event(None), None);
}

#[test]
fn workers_yield_after_their_time_and_report_slow_callbacks() {
    assert!(!worker_should_yield(100, 110));
    assert!(worker_should_yield(100, 111));
    assert!(!callback_was_slow(100, 105));
    assert!(callback_was_slow(100, 106));
}
