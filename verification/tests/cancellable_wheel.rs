use commlib::hash_wheel_timer::wheels::cancellable::QuadWheelWithOverflow;
use commlib::hash_wheel_timer::{CancellableTimerEntry, IdOnlyTimerEntry, Skip, TimerError};
use std::sync::Arc;

#[test]
fn single_schedule_fail() {
    let mut timer = QuadWheelWithOverflow::new();
    let id = 1u64;
    let res = timer.insert(IdOnlyTimerEntry { id, delay: 0 });
    assert!(res.is_err());
    match res {
        Err(TimerError::Expired(e)) => assert_eq!(e.id(), &id),
        _ => panic!("Unexpected result {:?}", res),
    }
}

#[test]
fn single_ms_schedule() {
    let mut timer = QuadWheelWithOverflow::new();
    let id = 1u64;
    timer
        .insert(IdOnlyTimerEntry { id, delay: 1 })
        .expect("Could not insert timer entry!");
    let res = timer.tick();
    assert_eq!(res.len(), 1);
    assert_eq!(res[0].id(), &id);
}

#[test]
fn single_ms_cancel() {
    let mut timer = QuadWheelWithOverflow::new();
    let id = 1u64;
    timer
        .insert(IdOnlyTimerEntry { id, delay: 1 })
        .expect("Could not insert timer entry!");
    timer.cancel(&id).expect("Entry could not be cancelled!");
    let res = timer.tick();
    assert_eq!(res.len(), 0);
}

#[test]
fn cancel_and_drain() {
    let mut timer = QuadWheelWithOverflow::new();

    let item1 = Arc::new(IdOnlyTimerEntry { id: 1, delay: 1 });
    let item2 = Arc::new(IdOnlyTimerEntry { id: 2, delay: 10 });
    let item3 = Arc::new(IdOnlyTimerEntry { id: 3, delay: 5 });

    timer
        .insert_ref(Arc::clone(&item1))
        .expect("Could not insert timer entry!");
    timer
        .insert_ref(Arc::clone(&item2))
        .expect("Could not insert timer entry!");
    timer
        .insert_ref(Arc::clone(&item3))
        .expect("Could not insert timer entry!");

    timer.cancel(&2).expect("Entry could not be cancelled!");

    let mut items = vec![];
    for _ in 0..10 {
        items.append(&mut timer.tick());
    }
    assert_eq!(items.len(), 2);
    assert_eq!(items[0].id(), &1);
    assert_eq!(items[1].id(), &3);
}

#[test]
fn single_ms_reschedule() {
    let mut timer = QuadWheelWithOverflow::new();
    let id = 1u64;
    let entry = IdOnlyTimerEntry { id, delay: 1 };

    timer.insert(entry).expect("Could not insert timer entry!");
    for _ in 0..1000 {
        let mut res = timer.tick();
        assert_eq!(res.len(), 1);
        let entry = res.pop().unwrap();
        assert_eq!(entry.id(), &id);
        timer
            .insert_ref(entry)
            .expect("Could not insert timer entry!");
    }
}

#[test]
fn increasing_schedule_no_overflow() {
    let mut timer = QuadWheelWithOverflow::new();
    let mut ids: [u64; 25] = [0; 25];
    for (i, slot) in ids.iter_mut().enumerate() {
        let timeout: u64 = 1 << i;
        let id = i as u64;
        *slot = id;
        let entry = IdOnlyTimerEntry { id, delay: timeout };
        timer.insert(entry).expect("Could not insert timer entry!");
    }
    for (i, slot) in ids.iter().enumerate() {
        let target: u64 = 1 << i;
        let prev: u64 = if i == 0 { 0 } else { 1 << (i - 1) };
        println!("target={} and prev={}", target, prev);
        for _ in (prev + 1)..target {
            let res = timer.tick();
            assert_eq!(res.len(), 0);
        }
        let mut res = timer.tick();
        assert_eq!(res.len(), 1);
        let entry = res.pop().unwrap();
        assert_eq!(entry.id(), slot);
    }
}

#[test]
fn increasing_schedule_overflow() {
    let mut timer = QuadWheelWithOverflow::new();
    let mut ids: [u64; 33] = [0; 33];
    for (i, slot) in ids.iter_mut().enumerate() {
        let timeout: u64 = 1 << i;
        let id = i as u64;
        *slot = id;
        let entry = IdOnlyTimerEntry { id, delay: timeout };
        timer.insert(entry).expect("Could not insert timer entry!");
    }
    for (i, slot) in ids.iter_mut().enumerate() {
        let target: u64 = 1 << i;
        let prev: u64 = if i == 0 { 0 } else { 1 << (i - 1) };
        println!("target={} (2^{}) and prev={}", target, i, prev);
        let diff = (target - prev - 1) as u32;
        timer.skip(diff);
        let mut res = timer.tick();
        assert_eq!(res.len(), 1);
        let entry = res.pop().unwrap();
        assert_eq!(entry.id(), slot);
    }
}

#[test]
fn increasing_skip() {
    let mut timer = QuadWheelWithOverflow::new();
    let mut ids: [u64; 33] = [0; 33];
    let mut timeouts: [u128; 33] = [0; 33];
    for i in 0..=32 {
        let timeout: u64 = 1 << i;
        timeouts[i] = timeout as u128;
        let id = i as u64;
        ids[i] = id;
        let entry = IdOnlyTimerEntry { id, delay: timeout };
        timer.insert(entry).expect("Could not insert timer entry!");
        println!("Added timeout at index={} with time={}", i, timeout);
    }
    let mut index = 0usize;
    let mut millis = 0u128;
    while index < 33 {
        match timer.can_skip() {
            Skip::Empty => panic!(
                "Timer ran empty with index={} and millis={}!",
                index, millis
            ),
            Skip::Millis(skip) => {
                timer.skip(skip);
                millis += skip as u128;
                println!("Skipped {}ms to {}", skip, millis);
            }
            Skip::Zero => (),
        }
        let mut res = timer.tick();
        millis += 1u128;
        if !res.is_empty() {
            let entry = res.pop().unwrap();
            assert_eq!(entry.id(), &ids[index]);
            assert_eq!(millis, timeouts[index]);
            println!("Handled timeout {} at {}ms", index, millis);
            index += 1usize;
        }
    }
    assert_eq!(timer.can_skip(), Skip::Empty);
}
