use chess_search::bitboard::Bitboard;
use chess_search::board::Board;
use chess_search::duration::Duration;
use chess_search::thread::{NoisyHistory, Params, QuietHistory, ThreadData};
use chess_search::time::{Limits, TimeManager};
use chess_search::types::{Color, Piece};
use std::time::Instant;

fn thread(completed_depth: i32, nodes: u64, shared_nodes: u64) -> ThreadData {
    ThreadData {
        board: Board {
            mailbox: [Piece::Empty; 64],
            side_to_move: Color::White,
            in_check: false,
            all_threats: Bitboard { bits: 0 },
            threats_by: [Bitboard { bits: 0 }; 6],
            checks_by: [Bitboard { bits: 0 }; 6],
            noisy_moves: vec![],
            quiet_moves: vec![],
            legal_moves: vec![],
            exchanges: vec![],
        },
        noisy_history: NoisyHistory { records: vec![] },
        quiet_history: QuietHistory { records: vec![] },
        continuations: vec![],
        counters: vec![],
        params: Params { piece_values: [0; 7], home_rows: [Bitboard { bits: 0 }; 2] },
        completed_depth,
        nodes,
        shared_nodes,
    }
}

fn ms(n: u64) -> Duration {
    Duration::from_millis(n)
}

fn pair(limits: &Limits, fullmove_number: usize, move_overhead: u64) -> (u64, u64) {
    let (soft, hard, _) = TimeManager::compute_bounds(limits, fullmove_number, move_overhead);
    (soft, hard)
}

/// The most that a hard bound may be, in native arithmetic.
fn hard_cap(main: u64) -> u64 {
    ((main as f64 * 0.25) as u64).max(50)
}

/// The most that a soft bound may be.
fn soft_cap(main: u64) -> u64 {
    hard_cap(main).saturating_sub(100).max(50)
}

/// The bounds of a game with increment, in native arithmetic.
fn native_fischer(main: u64, inc: u64, fullmove_number: usize, move_overhead: u64) -> (u64, u64) {
    let main = main.saturating_sub(move_overhead);
    let factor = if fullmove_number <= 10 {
        1.2
    } else if fullmove_number <= 40 {
        1.0
    } else {
        0.85 - 0.005 * (fullmove_number as f64 - 40.0).min(20.0)
    };
    let base_time = main as f64 * 0.035 * factor;
    let inc_bonus = inc as f64 * 0.6;
    let soft_bound = (base_time + inc_bonus).max(50u64 as f64) as u64;
    let hard_bound = (soft_bound as f64 * 4.0).min(main as f64 * 0.25) as u64;
    let soft = soft_bound.min(soft_cap(main)).min(main);
    (soft, hard_bound.max(soft + 100).min(hard_cap(main)).min(main))
}

/// The bounds of a game with a number of moves to go, in native arithmetic.
fn native_cyclic(main: u64, inc: u64, moves: u64, move_overhead: u64) -> (u64, u64) {
    let main = main.saturating_sub(move_overhead);
    let base_per_move =
        if moves > 0 { main as f64 / moves as f64 } else { main as f64 * 0.05 };
    let soft_bound = (base_per_move * 0.8 + inc as f64 * 0.6).max(50u64 as f64) as u64;
    let hard_bound = (base_per_move * 3.5 + inc as f64 * 0.8).min(main as f64 * 0.25) as u64;
    let soft = soft_bound.min(soft_cap(main)).min(main);
    (soft, hard_bound.max(soft + 100).min(hard_cap(main)).min(main))
}

fn next(state: &mut u64) -> u64 {
    *state = state.wrapping_mul(6364136223846793005).wrapping_add(1442695040888963407);
    let x = *state;
    (x >> 7) >> ((x >> 3) % 57)
}

#[test]
fn fischer_bounds_by_phase_of_the_game() {
    let limits = Limits::Fischer(60000, 1000);
    assert_eq!(pair(&limits, 5, 100), (3115, 12460));
    assert_eq!(pair(&limits, 10, 100), (3115, 12460));
    assert_eq!(pair(&limits, 11, 100), (2696, 10784));
    assert_eq!(pair(&limits, 40, 100), (2696, 10784));
    assert_eq!(pair(&limits, 60, 100), (2172, 8688));
    assert_eq!(pair(&limits, 500, 100), (2172, 8688));
    // An increment that is most of the time.
    assert_eq!(pair(&Limits::Fischer(1000, 2000), 20, 0), (150, 250));
    // Hardly any time.
    assert_eq!(pair(&Limits::Fischer(40, 0), 20, 0), (40, 40));
    assert_eq!(pair(&Limits::Fischer(200, 0), 20, 0), (50, 50));
    assert_eq!(pair(&Limits::Fischer(100, 0), 20, 0), (50, 50));
    assert_eq!(pair(&Limits::Fischer(500, 1000), 1, 0), (50, 125));
    assert_eq!(pair(&Limits::Fischer(599, 1000), 1, 0), (50, 149));
    assert_eq!(pair(&Limits::Fischer(604, 1000), 1, 0), (51, 151));
    assert_eq!(pair(&Limits::Fischer(50, 0), 20, 100), (0, 0));
}

#[test]
fn cyclic_bounds() {
    assert_eq!(pair(&Limits::Cyclic(60000, 0, 40), 1, 0), (1200, 5250));
    assert_eq!(pair(&Limits::Cyclic(60000, 1000, 40), 1, 0), (1800, 6050));
    assert_eq!(pair(&Limits::Cyclic(60000, 0, 0), 1, 0), (2400, 10500));
    assert_eq!(pair(&Limits::Cyclic(60000, 0, 1), 1, 0), (14900, 15000));
    assert_eq!(pair(&Limits::Cyclic(10000, 0, 1), 1, 0), (2400, 2500));
    assert_eq!(pair(&Limits::Cyclic(600, 0, 1), 1, 0), (50, 150));
    assert_eq!(pair(&Limits::Cyclic(100, 0, 40), 1, 0), (50, 50));
    assert_eq!(pair(&Limits::Cyclic(400, 0, 1), 1, 0), (50, 100));
    assert_eq!(pair(&Limits::Cyclic(100, 0, 40), 1, 500), (0, 0));
}

#[test]
fn bounds_agree_with_native_arithmetic() {
    let mut state = 11u64;
    for _ in 0..40000 {
        let main = next(&mut state);
        let inc = next(&mut state);
        let number = (next(&mut state) % 90) as usize;
        let overhead = next(&mut state) % 1000;
        let moves = next(&mut state);
        assert_eq!(
            pair(&Limits::Fischer(main, inc), number, overhead),
            native_fischer(main, inc, number, overhead)
        );
        assert_eq!(
            pair(&Limits::Cyclic(main, inc, moves), number, overhead),
            native_cyclic(main, inc, moves, overhead)
        );
        let few = moves % 60;
        assert_eq!(
            pair(&Limits::Cyclic(main, inc, few), number, overhead),
            native_cyclic(main, inc, few, overhead)
        );
    }
    for main in 0..3000u64 {
        for number in [1usize, 10, 11, 40, 41, 45, 53, 59, 60, 61, usize::MAX] {
            assert_eq!(
                pair(&Limits::Fischer(main, main / 3), number, 0),
                native_fischer(main, main / 3, number, 0)
            );
        }
        assert_eq!(
            pair(&Limits::Cyclic(main, main / 7, main % 13), 1, 0),
            native_cyclic(main, main / 7, main % 13, 0)
        );
    }
    assert_eq!(
        pair(&Limits::Fischer(u64::MAX, u64::MAX), 1, 0),
        native_fischer(u64::MAX, u64::MAX, 1, 0)
    );
    assert_eq!(
        pair(&Limits::Cyclic(u64::MAX, 0, 3), 1, 0),
        native_cyclic(u64::MAX, 0, 3, 0)
    );
}

#[test]
fn other_limits() {
    assert_eq!(pair(&Limits::Time(1000), 1, 50), (1000, 1000));
    assert_eq!(pair(&Limits::Infinite, 1, 50), (u64::MAX, u64::MAX));
    assert_eq!(pair(&Limits::Depth(9), 1, 50), (u64::MAX, u64::MAX));
    assert_eq!(pair(&Limits::Nodes(9), 1, 50), (u64::MAX, u64::MAX));
    let ponder = Limits::Ponder(Box::new(Limits::Fischer(60000, 1000)));
    let (soft, hard, limits) = TimeManager::compute_bounds(&ponder, 1, 50);
    assert_eq!((soft, hard), (u64::MAX, u64::MAX));
    match limits {
        Limits::Ponder(inner) => assert!(matches!(*inner, Limits::Fischer(60000, 1000))),
        _ => panic!("the limits are kept"),
    }
}

#[test]
fn a_clock_at_the_end_of_its_range() {
    for main in [u64::MAX, u64::MAX - 1, u64::MAX - 100, u64::MAX - 99, 1 << 63, 1 << 53] {
        for inc in [0, 1, u64::MAX] {
            for moves in [0, 1, 2, 40, u64::MAX] {
                assert_eq!(
                    pair(&Limits::Cyclic(main, inc, moves), 1, 0),
                    native_cyclic(main, inc, moves, 0)
                );
            }
            assert_eq!(pair(&Limits::Fischer(main, inc), 50, 0), native_fischer(main, inc, 50, 0));
        }
    }
}

#[test]
fn no_move_uses_more_than_a_quarter() {
    let mut state = 21u64;
    for _ in 0..20000 {
        let main = next(&mut state).min(1 << 53);
        let inc = next(&mut state);
        let moves = next(&mut state) % 50;
        for limits in [Limits::Fischer(main, inc), Limits::Cyclic(main, inc, moves)] {
            let (soft, hard) = pair(&limits, 5, 0);
            assert!(soft <= hard && hard <= main);
            assert!(hard <= (main / 4).max(50));
            assert!(soft >= main.min(50));
        }
    }
}

#[test]
fn later_moves_get_no_more_time() {
    let mut last = u64::MAX;
    for number in 0..80usize {
        let (soft, _) = pair(&Limits::Fischer(123456, 789), number, 10);
        assert!(soft <= last);
        last = soft;
    }
    for inc in [0, 500] {
        for moves in [0, 1, 7] {
            let mut last = [(0, 0), (0, 0)];
            for main in 0..20000u64 {
                let fischer = pair(&Limits::Fischer(main, inc), 30, 0);
                let cyclic = pair(&Limits::Cyclic(main, inc, moves), 30, 0);
                assert!(fischer.0 >= last[0].0 && fischer.1 >= last[0].1);
                assert!(cyclic.0 >= last[1].0 && cyclic.1 >= last[1].1);
                last = [fischer, cyclic];
            }
        }
    }
    let mut last = (u64::MAX, u64::MAX);
    for moves in 1..200u64 {
        let (soft, hard) = pair(&Limits::Cyclic(90000, 0, moves), 30, 0);
        assert!(soft <= last.0 && hard <= last.1);
        last = (soft, hard);
    }
}

#[test]
fn a_plan_takes_off_the_overhead() {
    let tm = TimeManager::new(Limits::Fischer(60000, 1000), 20, 100);
    assert_eq!(tm.soft_bound(), ms(2681));
    assert_eq!(tm.hard_bound(), ms(10769));
    assert_eq!(tm.allocated_time(), ms(2681));
    let tm = TimeManager::new(Limits::Time(10), 20, 100);
    assert_eq!(tm.soft_bound(), ms(0));
    let tm = TimeManager::new(Limits::Infinite, 20, 100);
    assert_eq!(tm.hard_bound(), ms(u64::MAX - 15));
    let copy = tm.clone();
    assert_eq!(copy.hard_bound(), tm.hard_bound());
    assert!(matches!(copy.limits(), Limits::Infinite));
}

#[test]
fn ponderhit_plans_for_the_actual_limits() {
    let expected = Limits::Ponder(Box::new(Limits::Fischer(60000, 1000)));
    let mut tm = TimeManager::new(expected, 20, 100);
    assert_eq!(tm.soft_bound(), ms(u64::MAX - 15));
    assert!(matches!(tm.limits(), Limits::Ponder(_)));
    tm.ponderhit(Limits::Fischer(60000, 1000), 20, 100);
    assert!(matches!(tm.limits(), Limits::Fischer(60000, 1000)));
    assert_eq!(tm.soft_bound(), ms(2681));
    assert_eq!(tm.hard_bound(), ms(10769));
    assert_eq!(tm.allocated_time(), ms(2681));
    // Only once.
    tm.ponderhit(Limits::Time(5), 20, 100);
    assert!(matches!(tm.limits(), Limits::Fischer(60000, 1000)));
    assert_eq!(tm.soft_bound(), ms(2681));
    // Another expectation keeps pondering.
    let mut tm = TimeManager::new(Limits::Ponder(Box::new(Limits::Infinite)), 20, 100);
    tm.ponderhit(Limits::Ponder(Box::new(Limits::Time(5))), 20, 100);
    assert!(matches!(tm.limits(), Limits::Ponder(_)));
    assert_eq!(tm.soft_bound(), ms(u64::MAX - 15));
}

#[test]
fn soft_limits() {
    let td = thread(1, 0, 500);
    let fischer = TimeManager::new(Limits::Fischer(60000, 1000), 20, 100);
    assert!(!fischer.soft_limit_after(&td, ms(2680), ms(2681)));
    assert!(fischer.soft_limit_after(&td, ms(2681), ms(2681)));
    assert!(!fischer.soft_limit_after(&td, ms(2681), ms(3000)));
    let nodes = TimeManager::new(Limits::Nodes(500), 20, 100);
    assert!(nodes.soft_limit_after(&td, ms(0), ms(0)));
    assert!(!nodes.soft_limit_after(&thread(1, 0, 499), ms(9), ms(0)));
    let time = TimeManager::new(Limits::Time(100), 20, 0);
    assert!(!time.soft_limit_after(&td, ms(99), ms(0)));
    assert!(time.soft_limit_after(&td, ms(100), ms(1000)));
    let depth = TimeManager::new(Limits::Depth(3), 20, 0);
    assert!(!depth.soft_limit_after(&td, ms(99), ms(0)));
    let endless = TimeManager::new(Limits::Infinite, 20, 0);
    assert!(!endless.soft_limit_after(&td, ms(99), ms(0)));
    let ponder = TimeManager::new(Limits::Ponder(Box::new(Limits::Infinite)), 20, 0);
    assert!(ponder.soft_limit_after(&td, ms(99), ms(99)));
}

#[test]
fn soft_limits_by_the_clock() {
    let td = thread(1, 0, 500);
    let fischer = TimeManager::new(Limits::Fischer(60000000, 1000), 20, 100);
    assert!(!fischer.soft_limit(&td, |bound| bound));
    assert!(fischer.soft_limit(&td, |bound| bound.saturating_sub(bound)));
    let seen = std::cell::Cell::new(ms(0));
    fischer.soft_limit(&td, |bound| {
        seen.set(bound);
        bound
    });
    assert_eq!(seen.get(), fischer.soft_bound());
    // The bound is not scaled where it does not count.
    let nodes = TimeManager::new(Limits::Nodes(500), 20, 100);
    assert!(nodes.soft_limit(&td, |_| panic!("not asked for")));
}

#[test]
fn hard_limits() {
    let fischer = TimeManager::new(Limits::Fischer(60000, 1000), 20, 100);
    assert!(fischer.check_time_after(&thread(1, 2047, 0), ms(10769)));
    assert!(!fischer.check_time_after(&thread(1, 2047, 0), ms(10768)));
    assert!(!fischer.check_time_after(&thread(1, 2048, 0), ms(10769)));
    assert!(fischer.check_time_after(&thread(1, 4095, 0), ms(20000)));
    assert!(!fischer.check_time_after(&thread(0, 2047, 0), ms(20000)));
    let nodes = TimeManager::new(Limits::Nodes(500), 20, 100);
    assert!(!nodes.check_time_after(&thread(1, 0, 500), ms(0)));
    assert!(nodes.check_time_after(&thread(1, 0, 501), ms(0)));
    assert!(!nodes.check_time_after(&thread(0, 0, 501), ms(0)));
    let time = TimeManager::new(Limits::Time(100), 20, 0);
    assert!(time.check_time_after(&thread(1, 2047, 0), ms(85)));
    assert!(!time.check_time_after(&thread(1, 2047, 0), ms(84)));
    let depth = TimeManager::new(Limits::Depth(3), 20, 0);
    assert!(!depth.check_time_after(&thread(1, 2047, 0), ms(u64::MAX)));
    let endless = TimeManager::new(Limits::Infinite, 20, 0);
    assert!(!endless.check_time_after(&thread(1, 2047, 0), ms(u64::MAX)));
}

#[test]
fn hard_limits_by_the_clock() {
    let late = TimeManager::new(Limits::Time(5), 20, 0);
    assert!(late.check_time(&thread(1, 2047, 0)));
    assert!(!late.check_time(&thread(1, 2046, 0)));
    assert!(!late.check_time(&thread(0, 2047, 0)));
    let early = TimeManager::new(Limits::Time(5000000), 20, 0);
    assert!(!early.check_time(&thread(1, 2047, 0)));
}

#[test]
fn the_clock_runs() {
    let tm = TimeManager::new(Limits::Time(5000000), 20, 0);
    let first = tm.elapsed();
    let mut later = tm.elapsed();
    while later <= first {
        later = tm.elapsed();
    }
    assert!(later > first);
    assert!(later < ms(20000));
    assert!(later.as_nanos() / 1_000_000_000 <= u64::MAX as u128);
    let left = tm.remaining_time();
    assert!(left < tm.soft_bound());
    assert!(left.as_nanos() + ms(20000).as_nanos() > tm.soft_bound().as_nanos());
    assert!(!tm.in_time_trouble());
}

#[test]
fn time_trouble_is_more_than_four_fifths() {
    let tm = TimeManager::new(Limits::Time(1015), 20, 0);
    assert_eq!(tm.allocated_time(), ms(1000));
    assert!(!tm.in_time_trouble_after(ms(0)));
    assert!(!tm.in_time_trouble_after(ms(800)));
    assert!(tm.in_time_trouble_after(Duration::from_nanos(800_000_001)));
    assert!(tm.in_time_trouble_after(ms(1000)));
    assert!(tm.in_time_trouble_after(ms(5000)));
    // Of nothing, any time is too much.
    let none = TimeManager::new(Limits::Fischer(10, 0), 1, 0);
    assert_eq!(none.allocated_time(), ms(0));
    assert!(!none.in_time_trouble_after(ms(0)));
    assert!(none.in_time_trouble_after(Duration::from_nanos(1)));
    while none.elapsed() == ms(0) {}
    assert!(none.in_time_trouble());
}

#[test]
fn the_time_counts_from_the_start() {
    let early = Instant::now();
    while early.elapsed().as_millis() < 30 {}
    let ponder = Limits::Ponder(Box::new(Limits::Time(20)));
    let mut tm = TimeManager::new_at(ponder, 20, 0, early);
    assert!(tm.elapsed() >= ms(30));
    assert!(tm.clone().elapsed() >= ms(30));
    // The time of the opponent does not count.
    let start = Instant::now();
    tm.ponderhit(Limits::Time(5000), 20, 0);
    let passed = tm.elapsed();
    assert!(passed.as_nanos() <= start.elapsed().as_nanos());
    // Another start is not taken any more.
    tm.ponderhit_at(Limits::Time(5000), 20, 0, early);
    assert!(tm.elapsed().as_nanos() <= start.elapsed().as_nanos());
    let ponder = Limits::Ponder(Box::new(Limits::Time(20)));
    let mut tm = TimeManager::new(ponder, 20, 0);
    tm.ponderhit_at(Limits::Time(20), 20, 0, early);
    assert!(tm.elapsed() >= ms(30));
    assert!(tm.check_time(&thread(1, 2047, 0)));
    assert!(tm.soft_limit(&thread(1, 2047, 0), |bound| bound));
    assert!(tm.in_time_trouble());
    assert_eq!(tm.remaining_time(), ms(0));
}

#[test]
fn remaining_time_runs_out() {
    let tm = TimeManager::new(Limits::Time(1015), 20, 0);
    assert_eq!(tm.remaining_time_after(ms(0)), ms(1000));
    assert_eq!(tm.remaining_time_after(ms(300)), ms(700));
    assert_eq!(tm.remaining_time_after(ms(1000)), ms(0));
    assert_eq!(tm.remaining_time_after(ms(4000)), ms(0));
}

#[test]
fn durations() {
    assert_eq!(ms(3).as_nanos(), 3_000_000);
    assert_eq!(Duration::from_nanos(7).as_nanos(), 7);
    assert_eq!(ms(3).saturating_sub(ms(1)), ms(2));
    assert_eq!(ms(1).saturating_sub(ms(3)), ms(0));
    assert!(ms(3).at_least(ms(3)));
    assert!(!ms(3).at_least(ms(4)));
}

#[test]
fn limits_reached_stay_reached_and_the_hard_one_comes_last() {
    let all = [
        Limits::Fischer(60000, 1000),
        Limits::Cyclic(60000, 0, 40),
        Limits::Nodes(500),
        Limits::Ponder(Box::new(Limits::Infinite)),
    ];
    for limits in all {
        let tm = TimeManager::new(limits, 20, 100);
        let soft = tm.soft_bound();
        let mut soft_before = false;
        let mut hard_before = false;
        let mut left_before = soft;
        for step in 0..200u64 {
            let td = thread(1, 2047 + 2048 * step, 10 * step);
            let elapsed = ms(100 * step);
            let stops = tm.soft_limit_after(&td, elapsed, soft);
            let must_stop = tm.check_time_after(&td, elapsed);
            let left = tm.remaining_time_after(elapsed);
            assert!(stops || !soft_before);
            assert!(must_stop || !hard_before);
            assert!(stops || !must_stop);
            assert!(left <= left_before);
            assert!(
                tm.in_time_trouble_after(elapsed) || 5 * left.as_nanos() >= soft.as_nanos()
            );
            soft_before = stops;
            hard_before = must_stop;
            left_before = left;
        }
    }
    // A fixed time is the one that ends before its soft limit.
    let fixed = TimeManager::new(Limits::Time(1000), 20, 0);
    assert!(fixed.check_time_after(&thread(1, 2047, 0), ms(990)));
    assert!(!fixed.soft_limit_after(&thread(1, 2047, 0), ms(990), ms(0)));
}
