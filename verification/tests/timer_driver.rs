use commlib::hash_wheel_timer::driver::{DriverError, TimerDriver};
use commlib::hash_wheel_timer::Skip;

#[test]
fn one_shot_fires_once() {
    let mut driver = TimerDriver::new();
    assert!(driver.is_running());
    assert!(driver.can_schedule());
    let id = driver.schedule_once(5).expect("timer not scheduled");
    assert_eq!(id, 1);
    assert_eq!(driver.next_wake(), Skip::Millis(4));
    assert!(driver.advance(4).is_empty());
    assert_eq!(driver.next_wake(), Skip::Zero);
    let fired = driver.advance(1);
    assert_eq!(fired.len(), 1);
    assert_eq!(fired[0].id, id);
    assert_eq!(fired[0].period, 0);
    assert!(driver.advance(100).is_empty());
    assert_eq!(driver.reschedule(fired[0].clone()), Err(DriverError::Expired));
    assert_eq!(driver.next_wake(), Skip::Empty);
}

#[test]
fn zero_delay_is_expired() {
    let mut driver = TimerDriver::new();
    assert_eq!(driver.schedule_once(0), Err(DriverError::Expired));
    assert_eq!(driver.schedule_periodic(0, 10), Err(DriverError::Expired));
    // A refused request uses up no id.
    assert_eq!(driver.schedule_once(1), Ok(1));
}

#[test]
fn periodic_fires_as_long_as_rescheduled() {
    let mut driver = TimerDriver::new();
    let id = driver.schedule_periodic(3, 10).expect("timer not scheduled");
    let mut fired_at: Vec<u64> = Vec::new();
    let mut now = 0u64;
    for _ in 0..4 {
        let sleep = match driver.next_wake() {
            Skip::Empty => panic!("Timer ran empty"),
            Skip::Millis(m) => m as u64 + 1,
            Skip::Zero => 1,
        };
        now += sleep;
        for task in driver.advance(sleep) {
            assert_eq!(task.id, id);
            fired_at.push(now);
            driver.reschedule(task).expect("timer not rescheduled");
        }
    }
    assert_eq!(fired_at, vec![3, 13, 23, 33]);
    driver.cancel(id).expect("timer not cancelled");
    assert!(driver.advance(50).is_empty());
}

#[test]
fn advance_lists_timers_in_firing_order() {
    let mut driver = TimerDriver::new();
    let late = driver.schedule_once(70000).expect("timer not scheduled");
    let early = driver.schedule_once(10).expect("timer not scheduled");
    let middle = driver.schedule_once(300).expect("timer not scheduled");
    let never = driver.schedule_once(200).expect("timer not scheduled");
    let beyond = driver.schedule_once(70001).expect("timer not scheduled");
    driver.cancel(never).expect("timer not cancelled");
    let fired: Vec<u64> = driver.advance(70000).iter().map(|t| t.id).collect();
    assert_eq!(fired, vec![early, middle, late]);
    let fired: Vec<u64> = driver.advance(1).iter().map(|t| t.id).collect();
    assert_eq!(fired, vec![beyond]);
    assert!(driver.advance(0).is_empty());
}

#[test]
fn advance_crosses_a_revolution() {
    let mut driver = TimerDriver::new();
    let far = driver.schedule_once((1 << 32) + 7).expect("timer not scheduled");
    assert!(driver.advance(1 << 32).is_empty());
    assert!(driver.advance(6).is_empty());
    let fired: Vec<u64> = driver.advance(1).iter().map(|t| t.id).collect();
    assert_eq!(fired, vec![far]);
}

#[test]
fn cancel_reports_unknown_ids() {
    let mut driver = TimerDriver::new();
    assert_eq!(driver.cancel(1), Err(DriverError::NotFound));
    let id = driver.schedule_once(2).expect("timer not scheduled");
    assert_eq!(driver.cancel(id), Ok(()));
    assert_eq!(driver.cancel(id), Err(DriverError::NotFound));
    let id = driver.schedule_once(1).expect("timer not scheduled");
    assert_eq!(driver.advance(1).len(), 1);
    assert_eq!(driver.cancel(id), Err(DriverError::NotFound));
}

#[test]
fn shutdown_is_terminal() {
    let mut driver = TimerDriver::new();
    let id = driver.schedule_once(5).expect("timer not scheduled");
    let periodic = driver.schedule_periodic(1, 1).expect("timer not scheduled");
    let task = driver.advance(1).pop().expect("timer not fired");
    assert_eq!(task.id, periodic);
    driver.shutdown();
    assert!(!driver.is_running());
    assert_eq!(driver.schedule_once(5), Err(DriverError::Shutdown));
    assert_eq!(driver.schedule_periodic(5, 5), Err(DriverError::Shutdown));
    assert_eq!(driver.reschedule(task), Err(DriverError::Shutdown));
    assert_eq!(driver.cancel(id), Err(DriverError::Shutdown));
    assert!(driver.advance(10).is_empty());
    assert_eq!(driver.next_wake(), Skip::Empty);
    driver.shutdown();
    assert!(!driver.is_running());
}
