use sortviz::array::ArrayModel;
use sortviz::bibubble::BiBubbleEngine;
use sortviz::bubble::BubbleEngine;
use sortviz::insertion::InsertionEngine;
use sortviz::merge::MergeEngine;
use sortviz::quick::QuickEngine;
use sortviz::TickResult;

fn assert_sorted_permutation(values: &[u16], len: u16) {
    let mut copy: Vec<u16> = values.to_vec();
    copy.sort();
    let expected: Vec<u16> = (1..=len).collect();
    assert_eq!(copy, expected);
    for w in values.windows(2) {
        assert!(w[0] <= w[1]);
    }
}

#[test]
fn bubble_sorts_shuffled() {
    let len: u16 = 64;
    let speed: u16 = 7;
    let mut a = ArrayModel::new(len);
    a.shuffle();
    let mut e = BubbleEngine::new(&a);
    let mut ticks: u32 = 0;
    loop {
        ticks += 1;
        assert!(ticks < 1_000_000);
        match e.tick(&mut a, speed) {
            TickResult::Done => {
                assert!(a.mods() <= speed as usize);
                break;
            }
            TickResult::Continue => assert_eq!(a.mods(), speed as usize),
        }
    }
    assert_sorted_permutation(&a.snapshot(), len);
}

#[test]
fn bi_bubble_sorts_shuffled() {
    let len: u16 = 64;
    let speed: u16 = 5;
    let mut a = ArrayModel::new(len);
    a.shuffle();
    let mut e = BiBubbleEngine::new(&a);
    let mut ticks: u32 = 0;
    loop {
        ticks += 1;
        assert!(ticks < 1_000_000);
        match e.tick(&mut a, speed) {
            TickResult::Done => {
                assert!(a.mods() <= speed as usize);
                break;
            }
            TickResult::Continue => assert_eq!(a.mods(), speed as usize),
        }
    }
    assert_sorted_permutation(&a.snapshot(), len);
}

#[test]
fn insertion_sorts_shuffled() {
    let len: u16 = 64;
    let speed: u16 = 3;
    let mut a = ArrayModel::new(len);
    a.shuffle();
    let mut e = InsertionEngine::new(&a);
    let mut ticks: u32 = 0;
    loop {
        ticks += 1;
        assert!(ticks < 1_000_000);
        match e.tick(&mut a, speed) {
            TickResult::Done => {
                assert!(a.mods() <= speed as usize);
                break;
            }
            TickResult::Continue => assert_eq!(a.mods(), speed as usize),
        }
    }
    assert_sorted_permutation(&a.snapshot(), len);
}

#[test]
fn merge_sorts_shuffled() {
    let len: u16 = 64;
    let speed: u16 = 4;
    let mut a = ArrayModel::new(len);
    a.shuffle();
    let mut e = MergeEngine::new(&a);
    let mut ticks: u32 = 0;
    loop {
        ticks += 1;
        assert!(ticks < 1_000_000);
        match e.tick(&mut a, speed) {
            TickResult::Done => {
                assert!(a.mods() <= speed as usize);
                break;
            }
            TickResult::Continue => assert_eq!(a.mods(), speed as usize),
        }
    }
    assert_sorted_permutation(&a.snapshot(), len);
}

#[test]
fn quick_sorts_shuffled() {
    let len: u16 = 64;
    let speed: u16 = 6;
    let mut a = ArrayModel::new(len);
    a.shuffle();
    let mut e = QuickEngine::new(&a);
    let mut ticks: u32 = 0;
    loop {
        ticks += 1;
        assert!(ticks < 1_000_000);
        match e.tick(&mut a, speed) {
            TickResult::Done => {
                assert!(a.mods() <= speed as usize);
                break;
            }
            TickResult::Continue => assert_eq!(a.mods(), speed as usize),
        }
    }
    assert_sorted_permutation(&a.snapshot(), len);
}

#[test]
fn quick_small_array_unlimited_budget() {
    // With an effectively unlimited per-tick budget, quick sort must
    // terminate after a bounded number of ticks, even with the pivot
    // landing on an existing boundary.
    let mut a = ArrayModel::new(5);
    a.reset(vec![5, 3, 8, 4, 2]);
    let mut e = QuickEngine::new(&a);
    let mut ticks: u32 = 0;
    loop {
        ticks += 1;
        assert!(ticks <= 16);
        if e.tick(&mut a, u16::MAX) == TickResult::Done {
            break;
        }
    }
    assert_eq!(a.snapshot(), vec![2, 3, 4, 5, 8]);
}

#[test]
fn bi_bubble_single_element_done_first_tick() {
    // The cursors meet immediately: no comparison range exists.
    let mut a = ArrayModel::new(1);
    let mut e = BiBubbleEngine::new(&a);
    assert_eq!(e.tick(&mut a, 1), TickResult::Done);
    assert_eq!(a.snapshot(), vec![1]);
}

#[test]
fn bi_bubble_empty_array_done_first_tick() {
    let mut a = ArrayModel::new(0);
    let mut e = BiBubbleEngine::new(&a);
    assert_eq!(e.tick(&mut a, 1), TickResult::Done);
}

#[test]
fn merge_sorted_input_zero_net_reordering() {
    // Every pass merges already-ordered halves: the copy-back writes tick
    // away but the array never changes.
    let len: u16 = 32;
    let before: Vec<u16> = (1..=len).collect();
    let mut a = ArrayModel::new(len);
    let mut e = MergeEngine::new(&a);
    let mut ticks: u32 = 0;
    loop {
        ticks += 1;
        assert!(ticks < 1_000_000);
        if e.tick(&mut a, 8) == TickResult::Done {
            break;
        }
        assert_eq!(a.snapshot(), before);
    }
    assert!(ticks > 1);
    assert_eq!(a.snapshot(), before);
}

#[test]
fn bubble_sorted_input_done_first_tick() {
    let mut a = ArrayModel::new(16);
    let mut e = BubbleEngine::new(&a);
    assert_eq!(e.tick(&mut a, 1), TickResult::Done);
    assert_eq!(a.mods(), 0);
}

#[test]
fn insertion_sorted_input_done_first_tick() {
    let mut a = ArrayModel::new(16);
    let mut e = InsertionEngine::new(&a);
    assert_eq!(e.tick(&mut a, 1), TickResult::Done);
    assert_eq!(a.mods(), 0);
}

#[test]
fn bubble_budget_exhausted_exactly_on_reversed() {
    // A reversed array of 16 elements needs 120 swaps; at 3 per tick the
    // budget is met exactly on every tick but the last.
    let mut a = ArrayModel::new(16);
    a.reverse();
    let mut e = BubbleEngine::new(&a);
    let mut continues: u32 = 0;
    loop {
        match e.tick(&mut a, 3) {
            TickResult::Continue => {
                assert_eq!(a.mods(), 3);
                continues += 1;
                assert!(continues < 1000);
            }
            TickResult::Done => {
                assert!(a.mods() <= 3);
                break;
            }
        }
    }
    assert_eq!(continues, 40);
    assert_sorted_permutation(&a.snapshot(), 16);
}

#[test]
fn bubble_single_element_done_first_tick() {
    let mut a = ArrayModel::new(1);
    let mut e = BubbleEngine::new(&a);
    assert_eq!(e.tick(&mut a, 1), TickResult::Done);
    assert_eq!(a.mods(), 0);
    assert_eq!(a.snapshot(), vec![1]);
}

#[test]
fn insertion_empty_array_done_first_tick() {
    let mut a = ArrayModel::new(0);
    let mut e = InsertionEngine::new(&a);
    assert_eq!(e.tick(&mut a, 1), TickResult::Done);
    assert_eq!(a.mods(), 0);
    assert_eq!(a.snapshot(), Vec::<u16>::new());
}

#[test]
fn quick_pivot_placement_is_counted() {
    // Placing the pivot counts even when it swaps with itself: on a
    // one-element array the single partition costs one operation.
    let mut a = ArrayModel::new(1);
    let mut e = QuickEngine::new(&a);
    assert_eq!(e.tick(&mut a, 1), TickResult::Continue);
    assert_eq!(a.mods(), 1);
    assert_eq!(e.tick(&mut a, 1), TickResult::Done);
    assert_eq!(a.mods(), 0);
}
