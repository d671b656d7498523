use commlib::hash_wheel_timer::wheels::byte_wheel::ByteWheel;
use commlib::hash_wheel_timer::wheels::cancellable::QuadWheelWithOverflow;
use commlib::hash_wheel_timer::wheels::quad_wheel::{
    KeepAll, Pruner, QuadWheelWithOverflow as BasicWheel,
};
use commlib::hash_wheel_timer::{
    CancellableTimerEntry, IdOnlyTimerEntry, PruneDecision, Skip, TimerError,
};
use std::sync::Arc;

const REVOLUTION: u64 = 1 << 32;

/// Skips as far as the wheel allows, then ticks once; returns what fired and
/// how many ticks went by.
fn step(timer: &mut QuadWheelWithOverflow<IdOnlyTimerEntry>) -> (Vec<Arc<IdOnlyTimerEntry>>, u64) {
    let mut elapsed = 0u64;
    if let Skip::Millis(m) = timer.can_skip() {
        timer.skip(m);
        elapsed += m as u64;
    }
    (timer.tick(), elapsed + 1)
}

#[test]
fn skip_hint_from_millis() {
    assert_eq!(Skip::from_millis(0), Skip::Zero);
    assert_eq!(Skip::from_millis(1), Skip::Millis(1));
    assert_eq!(Skip::from_millis(u32::MAX), Skip::Millis(u32::MAX));
    assert_eq!(Skip::empty(), Skip::Empty);
}

#[test]
fn prune_decisions() {
    assert!(PruneDecision::Keep.should_keep());
    assert!(!PruneDecision::Keep.should_drop());
    assert!(PruneDecision::Drop.should_drop());
    assert!(!PruneDecision::Drop.should_keep());
}

#[test]
fn byte_wheel_inserts_relative_to_current() {
    let mut wheel: ByteWheel<u32> = ByteWheel::new();
    assert!(wheel.is_empty());
    for _ in 0..250 {
        assert!(!wheel.advance());
    }
    assert_eq!(wheel.current(), 250);
    wheel.insert_at_offset(7, 10);
    assert!(!wheel.is_empty());
    assert_eq!(wheel.slot_len(4), 1);
    assert_eq!(wheel.first_occupied(0), Some(4));
    assert_eq!(wheel.first_occupied(5), None);
    wheel.insert_at(4, 8);
    assert_eq!(wheel.take_at(4), vec![7, 8]);
    assert!(wheel.is_empty());
}

#[test]
fn byte_wheel_tick_reports_wrap() {
    let mut wheel: ByteWheel<u32> = ByteWheel::new();
    wheel.insert_at_offset(1, 0);
    wheel.insert_at_offset(2, 255);
    let (first, wrapped) = wheel.tick();
    assert_eq!(first, vec![1]);
    assert!(!wrapped);
    for _ in 0..254 {
        let (out, wrapped) = wheel.tick();
        assert!(out.is_empty());
        assert!(!wrapped);
    }
    let (last, wrapped) = wheel.tick();
    assert_eq!(last, vec![2]);
    assert!(wrapped);
    assert_eq!(wheel.current(), 0);
    assert!(wheel.is_empty());
}

#[test]
fn basic_wheel_refuses_zero_delay() {
    let mut wheel: BasicWheel<u32> = BasicWheel::new();
    match wheel.insert_with_delay(9, 0) {
        Err(TimerError::Expired(e)) => assert_eq!(e, 9),
        other => panic!("Unexpected result {:?}", other),
    }
    assert_eq!(wheel.can_skip(), Skip::Empty);
}

#[test]
fn basic_wheel_inserts_by_own_delay() {
    let mut wheel: BasicWheel<IdOnlyTimerEntry> = BasicWheel::new();
    wheel.insert(IdOnlyTimerEntry::new(4, 3)).expect("Could not insert timer entry!");
    assert!(wheel.insert(IdOnlyTimerEntry::new(5, 0)).is_err());
    assert_eq!(wheel.can_skip(), Skip::Millis(2));
    assert!(wheel.tick(&KeepAll).is_empty());
    assert!(wheel.tick(&KeepAll).is_empty());
    assert_eq!(wheel.tick(&KeepAll), vec![IdOnlyTimerEntry { id: 4, delay: 3 }]);
}

#[test]
fn basic_wheel_conserves_entries() {
    let mut wheel: BasicWheel<u64> = BasicWheel::new();
    let mut seed = 12345u64;
    let mut expected: Vec<(u64, u64)> = Vec::new();
    for n in 0..2000u64 {
        seed = seed.wrapping_mul(6364136223846793005).wrapping_add(1442695040888963407);
        let delay = 1 + (seed >> 33) % 70000;
        wheel.insert_with_delay(n, delay).expect("Could not insert timer entry!");
        expected.push((delay, n));
    }
    let mut got: Vec<(u64, u64)> = Vec::new();
    for now in 1..=70000u64 {
        for e in wheel.tick(&KeepAll) {
            got.push((now, e));
        }
    }
    expected.sort();
    got.sort();
    assert_eq!(got, expected);
    assert_eq!(wheel.can_skip(), Skip::Empty);
}

/// Keeps the even numbers.
struct KeepEven;

impl Pruner<u64> for KeepEven {
    fn keeps(&self, e: u64) -> bool {
        e % 2 == 0
    }

    fn prune(&self, e: &u64) -> PruneDecision {
        if self.keeps(*e) {
            PruneDecision::Keep
        } else {
            PruneDecision::Drop
        }
    }
}

#[test]
fn pruner_is_asked_at_every_visit() {
    let mut wheel: BasicWheel<u64> = BasicWheel::new();
    for d in [1u64, 2, 3, 4, 300, 301, 70000, 70001, (1 << 32) + 2, (1 << 32) + 3] {
        wheel.insert_with_delay(d, d).expect("Could not insert timer entry!");
    }
    let mut fired: Vec<(u64, u64)> = Vec::new();
    let mut now = 0u64;
    loop {
        match wheel.can_skip() {
            Skip::Empty => break,
            Skip::Millis(m) => {
                wheel.skip(m);
                now += m as u64;
            }
            Skip::Zero => (),
        }
        now += 1;
        for e in wheel.tick(&KeepEven) {
            fired.push((now, e));
        }
    }
    assert_eq!(
        fired,
        vec![(2, 2), (4, 4), (300, 300), (70000, 70000), ((1 << 32) + 2, (1 << 32) + 2)]
    );
}

#[test]
fn default_wheel_is_a_new_wheel() {
    let mut timer: QuadWheelWithOverflow<IdOnlyTimerEntry> = Default::default();
    assert!(timer.is_empty());
    assert!(timer.can_insert());
    assert_eq!(timer.can_skip(), Skip::Empty);
    assert_eq!(timer.tick().len(), 0);
}

#[test]
fn skipping_is_ticking_without_the_work() {
    let delays: [u64; 9] = [1, 2, 255, 256, 257, 65535, 65536, 70000, 131072];
    let mut ticked: BasicWheel<u64> = BasicWheel::new();
    let mut skipped: BasicWheel<u64> = BasicWheel::new();
    for d in delays.iter() {
        ticked.insert_with_delay(*d, *d).expect("Could not insert timer entry!");
        skipped.insert_with_delay(*d, *d).expect("Could not insert timer entry!");
    }
    let mut by_ticks: Vec<(u64, u64)> = Vec::new();
    for now in 1..=131072u64 {
        for e in ticked.tick(&KeepAll) {
            by_ticks.push((now, e));
        }
    }
    let mut by_skips: Vec<(u64, u64)> = Vec::new();
    let mut now = 0u64;
    loop {
        match skipped.can_skip() {
            Skip::Empty => break,
            Skip::Millis(m) => {
                skipped.skip(m);
                now += m as u64;
            }
            Skip::Zero => (),
        }
        now += 1;
        for e in skipped.tick(&KeepAll) {
            by_skips.push((now, e));
        }
    }
    assert_eq!(by_ticks, by_skips);
    assert_eq!(by_ticks.len(), delays.len());
    for (at, e) in by_ticks {
        assert_eq!(at, e);
    }
}

#[test]
fn longest_delay_that_fits_the_wheels() {
    let mut timer = QuadWheelWithOverflow::new();
    timer
        .insert(IdOnlyTimerEntry { id: 1, delay: REVOLUTION - 1 })
        .expect("Could not insert timer entry!");
    // In the wheels it sits in the last slot of the highest wheel; in the
    // overflow list the wheel could be skipped to the end of the revolution.
    assert_eq!(timer.can_skip(), Skip::Millis(255 * 16777216 - 1));
    let mut now = 0u64;
    loop {
        let (fired, elapsed) = step(&mut timer);
        now += elapsed;
        if !fired.is_empty() {
            assert_eq!(fired.len(), 1);
            assert_eq!(fired[0].id(), &1);
            break;
        }
    }
    assert_eq!(now, REVOLUTION - 1);
    assert_eq!(timer.can_skip(), Skip::Empty);
}

#[test]
fn full_revolution_goes_to_overflow() {
    let mut timer = QuadWheelWithOverflow::new();
    timer
        .insert(IdOnlyTimerEntry { id: 1, delay: REVOLUTION })
        .expect("Could not insert timer entry!");
    assert_eq!(timer.can_skip(), Skip::Millis(u32::MAX));
    timer.skip(u32::MAX);
    assert_eq!(timer.can_skip(), Skip::Zero);
    let fired = timer.tick();
    assert_eq!(fired.len(), 1);
    assert_eq!(fired[0].id(), &1);
    assert_eq!(timer.can_skip(), Skip::Empty);
}

#[test]
fn overflow_entry_fires_after_promotion() {
    let mut timer = QuadWheelWithOverflow::new();
    timer
        .insert(IdOnlyTimerEntry { id: 1, delay: REVOLUTION + 5 })
        .expect("Could not insert timer entry!");
    loop {
        match timer.can_skip() {
            Skip::Millis(m) => timer.skip(m),
            Skip::Zero => break,
            Skip::Empty => panic!("Timer ran empty"),
        }
    }
    for _ in 0..5 {
        assert_eq!(timer.tick().len(), 0);
    }
    let fired = timer.tick();
    assert_eq!(fired.len(), 1);
    assert_eq!(fired[0].id(), &1);
}

#[test]
fn two_revolutions_stay_in_overflow_once() {
    let mut timer = QuadWheelWithOverflow::new();
    timer
        .insert(IdOnlyTimerEntry { id: 1, delay: 2 * REVOLUTION + 3 })
        .expect("Could not insert timer entry!");
    let mut now = 0u64;
    loop {
        let (fired, elapsed) = step(&mut timer);
        now += elapsed;
        if !fired.is_empty() {
            assert_eq!(fired[0].id(), &1);
            break;
        }
    }
    assert_eq!(now, 2 * REVOLUTION + 3);
}

#[test]
fn delay_crossing_the_revolution_boundary() {
    let mut timer = QuadWheelWithOverflow::new();
    // Bring the clock close to the end of the revolution first.
    timer.skip(u32::MAX - 9);
    timer
        .insert(IdOnlyTimerEntry { id: 7, delay: 20 })
        .expect("Could not insert timer entry!");
    timer
        .insert(IdOnlyTimerEntry { id: 8, delay: REVOLUTION - 2 })
        .expect("Could not insert timer entry!");
    for _ in 0..19 {
        assert_eq!(timer.tick().len(), 0);
    }
    let fired = timer.tick();
    assert_eq!(fired.len(), 1);
    assert_eq!(fired[0].id(), &7);
    let mut now = 20u64;
    loop {
        let (fired, elapsed) = step(&mut timer);
        now += elapsed;
        if !fired.is_empty() {
            assert_eq!(fired[0].id(), &8);
            break;
        }
    }
    assert_eq!(now, REVOLUTION - 2);
}

#[test]
fn random_half_cancelled() {
    let mut timer = QuadWheelWithOverflow::new();
    let mut seed = 987654321u64;
    let mut kept = 0usize;
    let mut cancelled: Vec<u64> = Vec::new();
    for id in 0..10_000u64 {
        seed = seed.wrapping_mul(6364136223846793005).wrapping_add(1442695040888963407);
        let delay = 1 + (seed >> 33) % 1000;
        timer
            .insert(IdOnlyTimerEntry { id, delay })
            .expect("Could not insert timer entry!");
        seed = seed.wrapping_mul(6364136223846793005).wrapping_add(1442695040888963407);
        if (seed >> 40) % 2 == 0 {
            cancelled.push(id);
        } else {
            kept += 1;
        }
    }
    for id in cancelled.iter() {
        timer.cancel(id).expect("Entry could not be cancelled!");
    }
    let mut fired: Vec<u64> = Vec::new();
    for _ in 0..1000 {
        for e in timer.tick() {
            fired.push(*e.id());
        }
    }
    assert_eq!(fired.len(), kept);
    for id in cancelled.iter() {
        assert!(!fired.contains(id));
    }
    assert!(timer.is_empty());
}

#[test]
fn cancel_unknown_id_is_not_found() {
    let mut timer: QuadWheelWithOverflow<IdOnlyTimerEntry> = QuadWheelWithOverflow::new();
    assert!(matches!(timer.cancel(&1), Err(TimerError::NotFound)));
    timer
        .insert(IdOnlyTimerEntry { id: 1, delay: 2 })
        .expect("Could not insert timer entry!");
    assert!(matches!(timer.cancel(&2), Err(TimerError::NotFound)));
    assert!(timer.cancel(&1).is_ok());
    assert!(matches!(timer.cancel(&1), Err(TimerError::NotFound)));
}

#[test]
fn cancelled_timer_never_fires() {
    let mut timer = QuadWheelWithOverflow::new();
    timer
        .insert(IdOnlyTimerEntry { id: 1, delay: 300 })
        .expect("Could not insert timer entry!");
    timer
        .insert(IdOnlyTimerEntry { id: 2, delay: 70000 })
        .expect("Could not insert timer entry!");
    timer.cancel(&1).expect("Entry could not be cancelled!");
    let mut fired: Vec<(u64, u64)> = Vec::new();
    for now in 1..=70000u64 {
        for e in timer.tick() {
            fired.push((now, *e.id()));
        }
    }
    assert_eq!(fired, vec![(70000, 2)]);
    assert_eq!(timer.can_skip(), Skip::Empty);
}

#[test]
fn insert_then_cancel_leaves_no_timer() {
    let mut touched = QuadWheelWithOverflow::new();
    let mut untouched = QuadWheelWithOverflow::new();
    for timer in [&mut touched, &mut untouched] {
        timer
            .insert(IdOnlyTimerEntry { id: 1, delay: 4 })
            .expect("Could not insert timer entry!");
    }
    touched
        .insert(IdOnlyTimerEntry { id: 2, delay: 3 })
        .expect("Could not insert timer entry!");
    touched.cancel(&2).expect("Entry could not be cancelled!");
    assert!(matches!(touched.cancel(&2), Err(TimerError::NotFound)));
    for _ in 0..6 {
        let a: Vec<u64> = touched.tick().iter().map(|e| *e.id()).collect();
        let b: Vec<u64> = untouched.tick().iter().map(|e| *e.id()).collect();
        assert_eq!(a, b);
    }
    assert_eq!(touched.is_empty(), untouched.is_empty());
    assert_eq!(touched.can_skip(), untouched.can_skip());
}

#[test]
fn cancelled_ticket_lingers_until_visited() {
    let mut timer = QuadWheelWithOverflow::new();
    timer
        .insert(IdOnlyTimerEntry { id: 1, delay: 5 })
        .expect("Could not insert timer entry!");
    timer.cancel(&1).expect("Entry could not be cancelled!");
    assert!(timer.is_empty());
    // The ticket is still in its slot, so the wheel does not skip past it.
    assert_eq!(timer.can_skip(), Skip::Millis(4));
    timer.skip(4);
    assert_eq!(timer.tick().len(), 0);
    assert_eq!(timer.can_skip(), Skip::Empty);
}

#[test]
fn entry_fires_exactly_after_its_delay() {
    for delay in [1u64, 2, 255, 256, 257, 511, 512, 65535, 65536, 65537, 16777215, 16777216] {
        let mut timer = QuadWheelWithOverflow::new();
        // Start from a clock with awkward digits.
        timer.skip(0x00FE_FFFE);
        timer
            .insert(IdOnlyTimerEntry { id: delay, delay })
            .expect("Could not insert timer entry!");
        let mut now = 0u64;
        loop {
            let (fired, elapsed) = step(&mut timer);
            now += elapsed;
            if !fired.is_empty() {
                assert_eq!(fired.len(), 1);
                assert_eq!(fired[0].id(), &delay);
                break;
            }
        }
        assert_eq!(now, delay);
        assert_eq!(timer.can_skip(), Skip::Empty);
    }
}

#[test]
fn same_id_again_replaces_the_timer() {
    let mut timer = QuadWheelWithOverflow::new();
    timer
        .insert(IdOnlyTimerEntry { id: 1, delay: 5 })
        .expect("Could not insert timer entry!");
    timer
        .insert(IdOnlyTimerEntry { id: 1, delay: 10 })
        .expect("Could not insert timer entry!");
    let mut fired: Vec<(u64, u64)> = Vec::new();
    for now in 1..=12u64 {
        for e in timer.tick() {
            fired.push((now, e.delay));
        }
    }
    assert_eq!(fired, vec![(10, 10)]);
}

#[test]
fn insert_ref_with_delay_overrides_own_delay() {
    let mut timer = QuadWheelWithOverflow::new();
    assert!(timer.can_insert());
    let entry = Arc::new(IdOnlyTimerEntry { id: 3, delay: 100 });
    timer
        .insert_ref_with_delay(Arc::clone(&entry), 2)
        .expect("Could not insert timer entry!");
    match timer.insert_ref_with_delay(Arc::clone(&entry), 0) {
        Err(TimerError::Expired(e)) => assert_eq!(e.id(), &3),
        other => panic!("Unexpected result {:?}", other),
    }
    assert_eq!(timer.tick().len(), 0);
    let fired = timer.tick();
    assert_eq!(fired.len(), 1);
    assert!(Arc::ptr_eq(&fired[0], &entry));
}
