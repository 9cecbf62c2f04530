use sortviz::driver::{Algorithm, Phase, Session, StartError};
use sortviz::TickResult;

fn run_to_completion(session: &mut Session) -> u32 {
    let mut ticks: u32 = 0;
    loop {
        ticks += 1;
        assert!(ticks < 5_000_000);
        if session.frame_tick() == TickResult::Done {
            return ticks;
        }
    }
}

fn assert_sorted_permutation(values: &[u16], len: u16) {
    let mut copy: Vec<u16> = values.to_vec();
    copy.sort();
    let expected: Vec<u16> = (1..=len).collect();
    assert_eq!(copy, expected);
    for w in values.windows(2) {
        assert!(w[0] <= w[1]);
    }
}

#[test]
fn start_rejects_concurrent_animation() {
    let mut session = Session::new(8);
    session.shuffle();
    assert_eq!(session.start(Algorithm::Bubble, 2), Ok(()));
    assert_eq!(session.phase(), Phase::Running);
    assert_eq!(
        session.start(Algorithm::Quick, 2),
        Err(StartError::AlreadyRunning)
    );
    assert_eq!(session.phase(), Phase::Running);
}

#[test]
fn full_animation_completes_sorted() {
    let len: u16 = 50;
    let mut session = Session::new(len);
    session.shuffle();
    assert_eq!(session.bubble_sort(10), Ok(()));
    run_to_completion(&mut session);
    assert_eq!(session.phase(), Phase::Completed);
    assert_sorted_permutation(&session.values(), len);
}

#[test]
fn shuffle_then_reverse_twice_restores_order() {
    let mut session = Session::new(100);
    session.shuffle();
    let shuffled = session.values();
    session.reverse();
    session.reverse();
    assert_eq!(session.values(), shuffled);
}

#[test]
fn reverse_reverses() {
    let mut session = Session::new(5);
    session.reverse();
    assert_eq!(session.values(), vec![5, 4, 3, 2, 1]);
}

#[test]
fn cancel_discards_running_animation() {
    let mut session = Session::new(20);
    session.shuffle();
    assert_eq!(session.start(Algorithm::Insertion, 1), Ok(()));
    session.cancel();
    assert_eq!(session.phase(), Phase::Idle);
    assert_eq!(session.start(Algorithm::Bubble, 1), Ok(()));
    run_to_completion(&mut session);
    assert_eq!(session.phase(), Phase::Completed);
}

#[test]
fn shuffle_preserves_elements() {
    let len: u16 = 800;
    let mut session = Session::new(len);
    session.shuffle();
    let mut values = session.values();
    values.sort();
    let expected: Vec<u16> = (1..=len).collect();
    assert_eq!(values, expected);
}

#[test]
fn every_entry_point_starts_its_algorithm() {
    let mut session = Session::new(12);
    assert_eq!(session.bubble_sort(1), Ok(()));
    session.cancel();
    assert_eq!(session.bi_bubble_sort(1), Ok(()));
    session.cancel();
    assert_eq!(session.insertion_sort(1), Ok(()));
    session.cancel();
    assert_eq!(session.merge_sort(1), Ok(()));
    session.cancel();
    assert_eq!(session.quick_sort(1), Ok(()));
    session.cancel();
    assert_eq!(session.phase(), Phase::Idle);
}

#[test]
fn all_algorithms_sort_through_the_session() {
    let len: u16 = 40;
    let algorithms = [
        Algorithm::Bubble,
        Algorithm::BiBubble,
        Algorithm::Insertion,
        Algorithm::Merge,
        Algorithm::Quick,
    ];
    for alg in algorithms {
        let mut session = Session::new(len);
        session.shuffle();
        assert_eq!(session.start(alg, 7), Ok(()));
        run_to_completion(&mut session);
        assert_eq!(session.phase(), Phase::Completed);
        assert_sorted_permutation(&session.values(), len);
    }
}

#[test]
fn continue_ticks_spend_the_whole_budget() {
    let mut session = Session::new(64);
    session.shuffle();
    assert_eq!(session.start(Algorithm::BiBubble, 9), Ok(()));
    loop {
        match session.frame_tick() {
            TickResult::Continue => assert_eq!(session.mods(), 9),
            TickResult::Done => {
                assert!(session.mods() <= 9);
                break;
            }
        }
    }
}

#[test]
fn completed_session_accepts_a_new_start() {
    let mut session = Session::new(10);
    session.shuffle();
    assert_eq!(session.quick_sort(4), Ok(()));
    run_to_completion(&mut session);
    assert_eq!(session.phase(), Phase::Completed);
    session.shuffle();
    assert_eq!(session.merge_sort(4), Ok(()));
    run_to_completion(&mut session);
    assert_eq!(session.phase(), Phase::Completed);
    assert_sorted_permutation(&session.values(), 10);
}
