//! What holds of the plans for a move.
use crate::binary64::{f_add, f_int, f_mul, f_ratio, f_trunc, one};
use crate::rounding::{
    f_add_monotone, f_int_exact, f_int_monotone, f_mul_exact, f_mul_monotone, f_ratio_exact,
    f_ratio_monotone, f_trunc_int, f_trunc_monotone, nearest_exact, nearest_monotone,
};
use crate::time::{
    after_ponderhit, bounds, capped_hard, capped_soft, clock_left, cyclic_hard, cyclic_soft,
    fischer_hard, fischer_soft, hard_cap, hard_stop, larger, lemma_late_discount, move_factor,
    plan, quarter, remaining, share, smaller, soft_cap, soft_stop, trouble, uses_soft_bound,
    Limits, TimePlan, MIN_THINK_TIME_MS,
};
use vstd::arithmetic::div_mod::{lemma_div_denominator, lemma_fundamental_div_mod_converse};
use vstd::arithmetic::power2::{
    lemma2_to64, lemma2_to64_rest, lemma_pow2_adds, lemma_pow2_pos, pow2,
};
use vstd::prelude::*;

verus! {

/// The soft bound comes no later than the hard bound, and of a clock neither uses more than it
/// shows once the overhead of the move is set aside.
pub proof fn bounds_are_ordered(limits: Limits, fullmove_number: usize, move_overhead: u64)
    ensures
        ({
            let (soft, hard) = bounds(limits, fullmove_number, move_overhead);
            &&& soft <= hard
            &&& limits matches Limits::Fischer(main, _) ==> hard <= clock_left(main, move_overhead)
            &&& limits matches Limits::Cyclic(main, _, _) ==> hard <= clock_left(
                main,
                move_overhead,
            )
        }),
{
}

/// A move is not played instantly: the soft bound is at least the minimum thinking time, or all
/// of what the clock shows if that is less.
pub proof fn some_time_to_think(limits: Limits, fullmove_number: usize, move_overhead: u64)
    ensures
        ({
            let (soft, _) = bounds(limits, fullmove_number, move_overhead);
            &&& limits matches Limits::Fischer(main, _) ==> soft >= MIN_THINK_TIME_MS || soft
                == clock_left(main, move_overhead)
            &&& limits matches Limits::Cyclic(main, _, _) ==> soft >= MIN_THINK_TIME_MS || soft
                == clock_left(main, move_overhead)
        }),
{
    let least = f_int(MIN_THINK_TIME_MS as nat);
    assert(f_trunc(least) == 50) by {
        f_int_exact(50);
        f_trunc_int(50);
    }
    assert forall|x: nat| f_trunc(#[trigger] larger(x, least)) >= 50 by {
        f_trunc_monotone(least, larger(x, least));
    }
}

/// A quarter of a clock of at most 2^53 milliseconds is exact.
pub proof fn a_quarter_is_exact(main: u64)
    requires
        main <= 0x20_0000_0000_0000,
    ensures
        f_trunc(quarter(main)) == main / 4,
{
    lemma2_to64();
    assert(f_ratio(25, 100) == pow2(1072)) by {
        f_ratio_monotone(25, 100, 1, 4);
        f_ratio_monotone(1, 4, 25, 100);
        f_ratio_exact(1, 2, 4);
    }
    let p = pow2(1072);
    let x = main as nat * p;
    assert(quarter(main) == x) by {
        if main < 0x20_0000_0000_0000 {
            f_int_exact(main as nat);
            f_mul_exact(main as nat, 1074, 1072);
        } else {
            lemma2_to64_rest();
            lemma_pow2_adds(53, 1074);
            lemma_pow2_adds(53, 1072);
            nearest_exact(1, 1127, 1);
            f_mul_exact(1, 1127, 1072);
            assert(main as nat * one() == 1 * pow2(1127) * 1);
        }
    }
    lemma_pow2_pos(1072);
    lemma_pow2_adds(1072, 2);
    lemma_div_denominator(x as int, p as int, 4);
    assert(x == p * main as nat) by (nonlinear_arith)
        requires
            x == main as nat * p,
    ;
    lemma_fundamental_div_mod_converse(x as int, p as int, main as int, 0);
    assert(x / one() == main as nat / 4);
}

/// The clock that a move is played by, once the overhead of the move is set aside.
pub open spec fn clock_of(limits: Limits, move_overhead: u64) -> Option<u64> {
    match limits {
        Limits::Fischer(main, _) => Some(clock_left(main, move_overhead)),
        Limits::Cyclic(main, _, _) => Some(clock_left(main, move_overhead)),
        _ => None,
    }
}

/// No move uses more than a quarter of the clock, unless that is less than the minimum thinking
/// time; and then no more than that.
pub proof fn at_most_a_quarter_of_the_clock(
    limits: Limits,
    fullmove_number: usize,
    move_overhead: u64,
)
    ensures
        ({
            let (soft, hard) = bounds(limits, fullmove_number, move_overhead);
            clock_of(limits, move_overhead) matches Some(left) ==> {
                &&& hard <= larger(f_trunc(quarter(left)) as nat, MIN_THINK_TIME_MS as nat)
                &&& 4 * MIN_THINK_TIME_MS <= left <= 0x20_0000_0000_0000 ==> hard <= left / 4
            }
        }),
{
    if let Some(left) = clock_of(limits, move_overhead) {
        if left <= 0x20_0000_0000_0000 {
            a_quarter_is_exact(left);
        }
    }
}

/// The factor for the number of a move does not grow with it.
pub proof fn later_moves_weigh_less(early: nat, later: nat)
    requires
        early <= later,
    ensures
        move_factor(later) <= move_factor(early),
{
    lemma2_to64();
    f_ratio_exact(1, 0, 1);
    f_int_exact(1);
    lemma_pow2_pos(1074);
    f_ratio_monotone(1, 1, 12, 10);
    if later > 40 {
        let k = if later <= 60 {
            (later - 40) as nat
        } else {
            20
        };
        lemma_late_discount(k);
        let x = f_ratio(85, 100);
        let y = f_mul(f_ratio(5, 1000), f_int(k));
        assert(move_factor(later) <= one()) by {
            f_ratio_monotone(85, 100, 1, 1);
            nearest_monotone((x - y) as nat, 1, one(), 1);
            nearest_exact(1, 1074, 1);
        }
        if early > 40 {
            let j = if early <= 60 {
                (early - 40) as nat
            } else {
                20
            };
            lemma_late_discount(j);
            let z = f_mul(f_ratio(5, 1000), f_int(j));
            f_int_monotone(j, k);
            f_mul_monotone(f_ratio(5, 1000), f_int(j), f_ratio(5, 1000), f_int(k));
            nearest_monotone((x - y) as nat, 1, (x - z) as nat, 1);
        }
    }
}

/// A quarter of a clock that shows more is no less.
proof fn lemma_quarter_monotone(main: u64, more_main: u64)
    requires
        main <= more_main,
    ensures
        quarter(main) <= quarter(more_main),
        hard_cap(main) <= hard_cap(more_main),
        soft_cap(main) <= soft_cap(more_main),
{
    let c = f_ratio(25, 100);
    f_int_monotone(main as nat, more_main as nat);
    f_mul_monotone(f_int(main as nat), c, f_int(more_main as nat), c);
    f_trunc_monotone(quarter(main), quarter(more_main));
}

/// Bounds that are no less are no less when they are held to a clock that shows no less.
proof fn lemma_capped_monotone(
    soft_bound: u64,
    hard_bound: u64,
    main: u64,
    more_soft: u64,
    more_hard: u64,
    more_main: u64,
)
    requires
        soft_bound <= more_soft,
        hard_bound <= more_hard,
        main <= more_main,
    ensures
        capped_soft(soft_bound, main) <= capped_soft(more_soft, more_main),
        capped_hard(capped_soft(soft_bound, main), hard_bound, main) <= capped_hard(
            capped_soft(more_soft, more_main),
            more_hard,
            more_main,
        ),
{
    lemma_quarter_monotone(main, more_main);
}

/// In a game with increment, a move gets no less time, neither by the soft nor by the hard bound,
/// than another with no more time on the clock, no more increment, and no smaller number.
pub proof fn fischer_time_grows_with_the_clock(
    main: u64,
    inc: u64,
    fullmove_number: usize,
    more_main: u64,
    more_inc: u64,
    earlier: usize,
    move_overhead: u64,
)
    requires
        main <= more_main,
        inc <= more_inc,
        earlier <= fullmove_number,
    ensures
        ({
            let less = bounds(Limits::Fischer(main, inc), fullmove_number, move_overhead);
            let more = bounds(Limits::Fischer(more_main, more_inc), earlier, move_overhead);
            less.0 <= more.0 && less.1 <= more.1
        }),
{
    let a = clock_left(main, move_overhead);
    let b = clock_left(more_main, move_overhead);
    let c = f_ratio(35, 1000);
    let d = f_ratio(6, 10);
    f_int_monotone(a as nat, b as nat);
    f_int_monotone(inc as nat, more_inc as nat);
    f_mul_monotone(f_int(a as nat), c, f_int(b as nat), c);
    later_moves_weigh_less(earlier as nat, fullmove_number as nat);
    let x = f_mul(f_int(a as nat), c);
    let y = f_mul(f_int(b as nat), c);
    let p = move_factor(fullmove_number as nat);
    let q = move_factor(earlier as nat);
    f_mul_monotone(x, p, y, q);
    f_mul_monotone(f_int(inc as nat), d, f_int(more_inc as nat), d);
    let u = f_add(f_mul(x, p), f_mul(f_int(inc as nat), d));
    let v = f_add(f_mul(y, q), f_mul(f_int(more_inc as nat), d));
    f_add_monotone(
        f_mul(x, p),
        f_mul(f_int(inc as nat), d),
        f_mul(y, q),
        f_mul(f_int(more_inc as nat), d),
    );
    let least = f_int(MIN_THINK_TIME_MS as nat);
    f_trunc_monotone(larger(u, least), larger(v, least));
    let m = fischer_soft(a, inc, fullmove_number as nat);
    let n = fischer_soft(b, more_inc, earlier as nat);
    f_int_monotone(m as nat, n as nat);
    f_mul_monotone(f_int(m as nat), f_int(4), f_int(n as nat), f_int(4));
    lemma_quarter_monotone(a, b);
    f_trunc_monotone(
        smaller(f_mul(f_int(m as nat), f_int(4)), quarter(a)),
        smaller(f_mul(f_int(n as nat), f_int(4)), quarter(b)),
    );
    lemma_capped_monotone(m, fischer_hard(a, m), a, n, fischer_hard(b, n), b);
}

/// A larger clock has no smaller shares, for no more moves.
proof fn lemma_share_monotone(main: u64, moves: u64, more_main: u64, fewer_moves: u64)
    requires
        main <= more_main,
        0 < fewer_moves <= moves || fewer_moves == moves,
    ensures
        share(main, moves) <= share(more_main, fewer_moves),
{
    f_int_monotone(main as nat, more_main as nat);
    let x = f_int(main as nat);
    let y = f_int(more_main as nat);
    if moves == 0 {
        f_mul_monotone(x, f_ratio(5, 100), y, f_ratio(5, 100));
    } else {
        f_int_monotone(fewer_moves as nat, moves as nat);
        f_int_monotone(1, fewer_moves as nat);
        f_int_exact(1);
        lemma_pow2_pos(1074);
        let k = f_int(moves as nat);
        let j = f_int(fewer_moves as nat);
        assert((x * one()) * j <= (y * one()) * k) by (nonlinear_arith)
            requires
                x <= y,
                j <= k,
        ;
        nearest_monotone(x * one(), k, y * one(), j);
    }
}

/// A part of a larger share and of a larger increment is no less.
proof fn lemma_parts_monotone(x: nat, y: nat, inc: u64, more_inc: u64, e: nat, d: nat)
    requires
        x <= y,
        inc <= more_inc,
    ensures
        f_add(f_mul(x, e), f_mul(f_int(inc as nat), d)) <= f_add(
            f_mul(y, e),
            f_mul(f_int(more_inc as nat), d),
        ),
{
    f_int_monotone(inc as nat, more_inc as nat);
    f_mul_monotone(x, e, y, e);
    f_mul_monotone(f_int(inc as nat), d, f_int(more_inc as nat), d);
    f_add_monotone(
        f_mul(x, e),
        f_mul(f_int(inc as nat), d),
        f_mul(y, e),
        f_mul(f_int(more_inc as nat), d),
    );
}

/// In a game with a number of moves to go, known for both moves or for neither, a move gets no
/// less time, neither by the soft nor by the hard bound, than another with no more time on the
/// clock, no more increment, and no fewer moves to go.
pub proof fn cyclic_time_grows_with_the_clock(
    main: u64,
    inc: u64,
    moves: u64,
    more_main: u64,
    more_inc: u64,
    fewer_moves: u64,
    fullmove_number: usize,
    move_overhead: u64,
)
    requires
        main <= more_main,
        inc <= more_inc,
        0 < fewer_moves <= moves || fewer_moves == moves,
    ensures
        ({
            let less = bounds(Limits::Cyclic(main, inc, moves), fullmove_number, move_overhead);
            let more = bounds(
                Limits::Cyclic(more_main, more_inc, fewer_moves),
                fullmove_number,
                move_overhead,
            );
            less.0 <= more.0 && less.1 <= more.1
        }),
{
    let a = clock_left(main, move_overhead);
    let b = clock_left(more_main, move_overhead);
    let x = share(a, moves);
    let y = share(b, fewer_moves);
    lemma_share_monotone(a, moves, b, fewer_moves);
    let part = f_ratio(8, 10);
    let bonus = f_ratio(6, 10);
    lemma_parts_monotone(x, y, inc, more_inc, part, bonus);
    let least = f_int(MIN_THINK_TIME_MS as nat);
    f_trunc_monotone(
        larger(f_add(f_mul(x, part), f_mul(f_int(inc as nat), bonus)), least),
        larger(f_add(f_mul(y, part), f_mul(f_int(more_inc as nat), bonus)), least),
    );
    let times = f_ratio(35, 10);
    let more_bonus = f_ratio(8, 10);
    lemma_parts_monotone(x, y, inc, more_inc, times, more_bonus);
    lemma_quarter_monotone(a, b);
    f_trunc_monotone(
        smaller(f_add(f_mul(x, times), f_mul(f_int(inc as nat), more_bonus)), quarter(a)),
        smaller(f_add(f_mul(y, times), f_mul(f_int(more_inc as nat), more_bonus)), quarter(b)),
    );
    lemma_capped_monotone(
        cyclic_soft(a, inc, moves),
        cyclic_hard(a, inc, moves),
        a,
        cyclic_soft(b, more_inc, fewer_moves),
        cyclic_hard(b, more_inc, fewer_moves),
        b,
    );
}

/// On the opponent's time there is no bound, whatever limits are to follow.
pub proof fn pondering_is_unbounded(inner: Limits, fullmove_number: usize, move_overhead: u64)
    ensures
        bounds(Limits::Ponder(Box::new(inner)), fullmove_number, move_overhead) == (
            u64::MAX,
            u64::MAX,
        ),
{
}

/// Once the opponent plays the expected move, the plan is the one that would have been made had
/// there been no thinking on the opponent's time; without such thinking nothing changes.
pub proof fn ponderhit_plans_afresh(
    expected: Limits,
    before_number: usize,
    before_overhead: u64,
    limits: Limits,
    fullmove_number: usize,
    move_overhead: u64,
)
    ensures
        after_ponderhit(
            plan(Limits::Ponder(Box::new(expected)), before_number, before_overhead),
            limits,
            fullmove_number,
            move_overhead,
        ) == plan(limits, fullmove_number, move_overhead),
        !(expected is Ponder) ==> after_ponderhit(
            plan(expected, before_number, before_overhead),
            limits,
            fullmove_number,
            move_overhead,
        ) == plan(expected, before_number, before_overhead),
{
}

/// A search that is not held to a fixed time never has to stop before it should: where it must
/// stop, no new iteration should start either, with the soft bound as it was planned.
pub proof fn the_hard_limit_implies_the_soft_one(
    limits: Limits,
    fullmove_number: usize,
    move_overhead: u64,
    completed_depth: i32,
    nodes: u64,
    total_nodes: u64,
    elapsed: nat,
)
    requires
        !(limits is Time),
    ensures
        ({
            let p = plan(limits, fullmove_number, move_overhead);
            hard_stop(p, completed_depth, nodes, total_nodes, elapsed) ==> soft_stop(
                p,
                total_nodes,
                elapsed,
                p.soft_bound,
            )
        }),
{
    bounds_are_ordered(limits, fullmove_number, move_overhead);
}

/// As time passes and nodes are searched, a soft limit that is reached stays reached, time
/// trouble stays, and what is left does not grow; the hard limit stays reached at every node at
/// which the clock counts.
pub proof fn limits_once_reached_stay_reached(
    p: TimePlan,
    completed_depth: i32,
    nodes: u64,
    total_nodes: u64,
    elapsed: nat,
    scaled: nat,
    later_nodes: u64,
    later_total_nodes: u64,
    later: nat,
)
    requires
        total_nodes <= later_total_nodes,
        elapsed <= later,
    ensures
        soft_stop(p, total_nodes, elapsed, scaled) ==> soft_stop(p, later_total_nodes, later, scaled),
        trouble(p, elapsed) ==> trouble(p, later),
        remaining(p, later) <= remaining(p, elapsed),
        hard_stop(p, completed_depth, nodes, total_nodes, elapsed) && later_nodes % 2048 == 2047
            ==> hard_stop(p, completed_depth, later_nodes, later_total_nodes, later),
{
}

/// Short of time trouble, at least a fifth of the soft bound of a plan remains.
pub proof fn short_of_trouble_a_fifth_remains(
    limits: Limits,
    fullmove_number: usize,
    move_overhead: u64,
    elapsed: nat,
)
    ensures
        ({
            let p = plan(limits, fullmove_number, move_overhead);
            !trouble(p, elapsed) ==> 5 * remaining(p, elapsed) >= p.soft_bound
        }),
{
}

/// Without a limit of time or nodes, nothing stops the search.
pub proof fn endless_limits_never_stop(
    p: TimePlan,
    completed_depth: i32,
    nodes: u64,
    total_nodes: u64,
    elapsed: nat,
    scaled: nat,
)
    requires
        p.limits is Infinite || p.limits is Depth,
    ensures
        !soft_stop(p, total_nodes, elapsed, scaled),
        !hard_stop(p, completed_depth, nodes, total_nodes, elapsed),
{
}

// What limits come to, in milliseconds and nanoseconds

/// What a clock shows less the overhead of a move, and nothing where the overhead is more.
pub proof fn the_overhead_is_set_aside(main: u64, move_overhead: u64)
    ensures
        main >= move_overhead ==> clock_left(main, move_overhead) + move_overhead == main,
        main <= move_overhead ==> clock_left(main, move_overhead) == 0,
{
}

/// A fixed time is its own bound; without a clock there is no bound.
pub proof fn without_a_clock_nothing_is_computed(
    limits: Limits,
    fullmove_number: usize,
    move_overhead: u64,
)
    ensures
        ({
            let (soft, hard) = bounds(limits, fullmove_number, move_overhead);
            &&& limits matches Limits::Time(ms) ==> soft == ms && hard == ms
            &&& limits is Infinite || limits is Depth || limits is Nodes || limits is Ponder
                ==> soft == 0xffff_ffff_ffff_ffff && hard == 0xffff_ffff_ffff_ffff
        }),
{
}

/// A plan is made of the bounds: each in nanoseconds, less 15 milliseconds, or nothing where it is
/// less than that; what is allocated is the soft bound. It keeps the limits.
pub proof fn a_plan_is_its_bounds(limits: Limits, fullmove_number: usize, move_overhead: u64)
    ensures
        ({
            let p = plan(limits, fullmove_number, move_overhead);
            let (soft, hard) = bounds(limits, fullmove_number, move_overhead);
            &&& p.limits == limits
            &&& soft >= 15 ==> p.soft_bound + 15_000_000 == 1_000_000 * soft
            &&& soft <= 15 ==> p.soft_bound == 0
            &&& hard >= 15 ==> p.hard_bound + 15_000_000 == 1_000_000 * hard
            &&& hard <= 15 ==> p.hard_bound == 0
            &&& p.allocated_time == p.soft_bound
        }),
{
}

/// No game with a clock gets an unbounded plan: the bounds of the plan stay within what the clock
/// shows once the overhead of the move is set aside, and the soft one comes first.
pub proof fn a_clock_bounds_the_plan(limits: Limits, fullmove_number: usize, move_overhead: u64)
    ensures
        ({
            let p = plan(limits, fullmove_number, move_overhead);
            &&& p.soft_bound <= p.hard_bound
            &&& limits matches Limits::Fischer(main, _) ==> p.hard_bound <= (if main
                >= move_overhead {
                1_000_000 * (main - move_overhead)
            } else {
                0
            })
            &&& limits matches Limits::Cyclic(main, _, _) ==> p.hard_bound <= (if main
                >= move_overhead {
                1_000_000 * (main - move_overhead)
            } else {
                0
            })
            &&& limits matches Limits::Time(ms) ==> p.hard_bound <= 1_000_000 * ms
        }),
{
    bounds_are_ordered(limits, fullmove_number, move_overhead);
}

/// Where no time was spent on the opponent's time, a ponderhit changes nothing; where it was, the
/// limits are the actual ones, and the bounds are theirs, in nanoseconds less 15 milliseconds.
pub proof fn a_ponderhit_takes_the_actual_limits(
    before: TimePlan,
    limits: Limits,
    fullmove_number: usize,
    move_overhead: u64,
)
    ensures
        ({
            let p = after_ponderhit(before, limits, fullmove_number, move_overhead);
            let (soft, hard) = bounds(limits, fullmove_number, move_overhead);
            &&& !(before.limits is Ponder) ==> p == before
            &&& before.limits is Ponder ==> {
                &&& p.limits == limits
                &&& soft >= 15 ==> p.soft_bound + 15_000_000 == 1_000_000 * soft
                &&& hard >= 15 ==> p.hard_bound + 15_000_000 == 1_000_000 * hard
                &&& soft <= 15 ==> p.soft_bound == 0
                &&& hard <= 15 ==> p.hard_bound == 0
                &&& p.allocated_time == p.soft_bound
            }
        }),
{
}

/// In a game with increment the hard bound follows from the soft one, on clocks of at most 2^53
/// milliseconds: four times as much but no more than a quarter of the clock, at least 100 ms past
/// it, and then no more than a quarter, or 50 ms, or the clock.
pub proof fn the_hard_bound_is_four_soft_bounds(
    main: u64,
    inc: u64,
    fullmove_number: usize,
    move_overhead: u64,
)
    requires
        clock_left(main, move_overhead) <= 0x20_0000_0000_0000,
    ensures
        ({
            let left = if main >= move_overhead {
                main - move_overhead
            } else {
                0
            };
            let (soft, hard) = bounds(Limits::Fischer(main, inc), fullmove_number, move_overhead);
            let most = left / 4;
            let four = if 4 * soft <= most {
                4 * soft
            } else {
                most
            };
            let wanted = if four >= soft + 100 {
                four
            } else {
                soft + 100
            };
            let capped = if wanted <= most {
                wanted
            } else if most >= 50 {
                most
            } else if wanted <= 50 {
                wanted
            } else {
                50
            };
            hard == if capped <= left {
                capped
            } else {
                left
            }
        }),
{
    let left = clock_left(main, move_overhead);
    a_quarter_is_exact(left);
    some_time_to_think(Limits::Fischer(main, inc), fullmove_number, move_overhead);
    let (soft, hard) = bounds(Limits::Fischer(main, inc), fullmove_number, move_overhead);
    let fs = fischer_soft(left, inc, fullmove_number as nat);
    let most = f_trunc(quarter(left));
    let x = f_mul(f_int(fs as nat), f_int(4));
    // Four times the soft bound needs no rounding.
    let y = f_mul(f_int(soft as nat), f_int(4));
    let o = one();
    assert(y == (4 * soft as nat) * o) by {
        lemma2_to64();
        lemma_pow2_adds(2, 1074);
        f_int_exact(4);
        if soft < 0x20_0000_0000_0000 {
            f_int_exact(soft as nat);
            f_mul_exact(soft as nat, 1074, 1076);
            let n = soft as nat;
            assert(n * pow2(1076) == (4 * n) * o) by (nonlinear_arith)
                requires
                    pow2(1076) == 4 * o,
            ;
        }
    }
    f_trunc_int(4 * soft as nat);
    f_int_monotone(soft as nat, fs as nat);
    f_mul_monotone(f_int(soft as nat), f_int(4), f_int(fs as nat), f_int(4));
    f_trunc_monotone(y, x);
    if x >= quarter(left) {
        f_trunc_monotone(quarter(left), x);
    } else {
        f_trunc_monotone(x, quarter(left));
    }
    assert(fischer_hard(left, fs) == smaller(f_trunc(x) as nat, most as nat));
    if fs != soft {
        assert(4 * soft >= most);
    }
}

// When a search stops

/// Before the first iteration is complete nothing stops a search; afterwards it does not matter
/// how many iterations are. A limit of nodes stops it exactly where more are searched; a limit of
/// time, of whichever form, exactly where the hard bound has passed, at every 2048th node; a limit
/// of depth, or none, never does.
pub proof fn when_a_search_must_stop(
    p: TimePlan,
    depth: i32,
    other_depth: i32,
    nodes: u64,
    total_nodes: u64,
    elapsed: nat,
)
    ensures
        !hard_stop(p, 0, nodes, total_nodes, elapsed),
        depth != 0 && other_depth != 0 ==> hard_stop(p, depth, nodes, total_nodes, elapsed)
            == hard_stop(p, other_depth, nodes, total_nodes, elapsed),
        depth != 0 ==> {
            &&& p.limits matches Limits::Nodes(n) ==> hard_stop(
                p,
                depth,
                nodes,
                total_nodes,
                elapsed,
            ) == (total_nodes > n)
            &&& p.limits is Time || p.limits is Fischer || p.limits is Cyclic || p.limits is Ponder
                ==> hard_stop(p, depth, nodes, total_nodes, elapsed) == (elapsed >= p.hard_bound
                && exists|k: int| nodes == #[trigger] (2048 * k) + 2047)
            &&& p.limits is Infinite || p.limits is Depth ==> !hard_stop(
                p,
                depth,
                nodes,
                total_nodes,
                elapsed,
            )
        },
{
    if nodes % 2048 == 2047 {
        let k = nodes as int / 2048;
        assert(nodes == 2048 * k + 2047);
    }
}

/// No new iteration starts: with a limit of nodes exactly where as many are searched, with a fixed
/// time exactly where it has passed, in full milliseconds of a million nanoseconds, with a clock
/// or on the opponent's time exactly where the scaled bound has passed, and with a limit of depth
/// or none never. The scaled bound counts exactly with a clock or on the opponent's time.
pub proof fn when_no_iteration_starts(p: TimePlan, total_nodes: u64, elapsed: nat, scaled: nat)
    ensures
        p.limits matches Limits::Nodes(n) ==> soft_stop(p, total_nodes, elapsed, scaled) == (
        total_nodes >= n),
        p.limits matches Limits::Time(ms) ==> soft_stop(p, total_nodes, elapsed, scaled) == (elapsed
            >= 1_000_000 * ms),
        p.limits is Fischer || p.limits is Cyclic || p.limits is Ponder ==> soft_stop(
            p,
            total_nodes,
            elapsed,
            scaled,
        ) == (elapsed >= scaled) && uses_soft_bound(p.limits),
        p.limits is Infinite || p.limits is Depth ==> !soft_stop(p, total_nodes, elapsed, scaled),
        p.limits is Infinite || p.limits is Depth || p.limits is Time || p.limits is Nodes
            ==> !uses_soft_bound(p.limits),
{
}

/// Time trouble is to have used more than 80 of 100 parts of what is allocated; what remains and
/// what is used make up the soft bound, or nothing remains.
pub proof fn what_is_used_and_what_remains(p: TimePlan, elapsed: nat)
    ensures
        trouble(p, elapsed) == (100 * elapsed > 80 * p.allocated_time),
        elapsed <= p.soft_bound ==> remaining(p, elapsed) + elapsed == p.soft_bound,
        elapsed >= p.soft_bound ==> remaining(p, elapsed) == 0,
{
}

} // verus!
