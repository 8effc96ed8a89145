use fwconsole::sched::PollScheduler;

#[test]
fn first_refresh_becomes_due_after_one_interval() {
    let mut s = PollScheduler::new(0);
    assert!(!s.tick(0));
    assert!(!s.tick(500));
    assert!(!s.tick(999));
    assert!(s.tick(1000));
}

#[test]
fn two_ticks_less_than_a_second_apart_trigger_at_most_once() {
    let mut s = PollScheduler::new(0);
    let first = s.tick(1200);
    let second = s.tick(1900);
    assert!(first);
    assert!(!second);
}

#[test]
fn an_undue_tick_leaves_the_deadline_unchanged() {
    let mut s = PollScheduler::new(0);
    assert!(!s.tick(900));
    assert!(s.tick(1000));
    assert!(!s.tick(1999));
    assert!(s.tick(2000));
}

#[test]
fn a_due_tick_resets_the_deadline_to_its_own_instant() {
    let mut s = PollScheduler::new(0);
    assert!(s.tick(2500));
    assert!(!s.tick(3499));
    assert!(s.tick(3500));
}
