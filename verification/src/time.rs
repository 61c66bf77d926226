//! Time management: how long to think about a move under the limits of a game.
use crate::binary64::{f_add, f_div, f_int, f_mul, f_ratio, f_sub, f_trunc, Binary64};
use crate::duration::{measurable, millis, now, same_nanos, since, Duration};
use crate::rounding::{
    f_int_exact, f_int_monotone, f_mul_exact, f_mul_monotone, f_ratio_exact, f_ratio_monotone,
};
use crate::thread::ThreadData;
use std::time::Instant;
use vstd::arithmetic::power2::{
    lemma2_to64, lemma_pow2_adds, lemma_pow2_pos, lemma_pow2_unfold, pow2,
};
use vstd::prelude::*;

verus! {

/// What bounds a search.
#[derive(Debug)]
pub enum Limits {
    Infinite,
    Depth(i32),
    Time(u64),
    Nodes(u64),
    /// Time left on the clock and increment, in milliseconds.
    Fischer(u64, u64),
    /// Time left on the clock, increment, and moves until the next time control.
    Cyclic(u64, u64, u64),
    /// The limits that apply from the moment the opponent plays the expected move.
    Ponder(Box<Limits>),
}

impl Clone for Limits {
    fn clone(&self) -> (r: Self)
        ensures
            r == *self,
        decreases self,
    {
        match self {
            Limits::Infinite => Limits::Infinite,
            Limits::Depth(depth) => Limits::Depth(*depth),
            Limits::Time(ms) => Limits::Time(*ms),
            Limits::Nodes(nodes) => Limits::Nodes(*nodes),
            Limits::Fischer(main, inc) => Limits::Fischer(*main, *inc),
            Limits::Cyclic(main, inc, moves) => Limits::Cyclic(*main, *inc, *moves),
            Limits::Ponder(inner) => Limits::Ponder(Box::new((&**inner).clone())),
        }
    }
}

pub const TIME_OVERHEAD_MS: u64 = 15;

/// Minimum thinking time to ensure we don't move instantly
pub const MIN_THINK_TIME_MS: u64 = 50;

/// How far the hard bound lies past the soft bound at least, as far as its cap allows
pub const HARD_MARGIN_MS: u64 = 100;

/// What a clock shows once the overhead of a move is set aside.
pub open spec fn clock_left(main: u64, move_overhead: u64) -> u64 {
    if main >= move_overhead {
        (main - move_overhead) as u64
    } else {
        0
    }
}

/// How the time for a move depends on the number of the move: 1.2 in the opening, 1.0 in the
/// middlegame, and in the endgame 0.85 less 0.005 for each move past the 40th, of which at most
/// 20 count.
pub open spec fn move_factor(fullmove_number: nat) -> nat {
    if fullmove_number <= 10 {
        f_ratio(12, 10)
    } else if fullmove_number <= 40 {
        f_int(1)
    } else {
        let late = if fullmove_number <= 60 {
            (fullmove_number - 40) as nat
        } else {
            20
        };
        f_sub(f_ratio(85, 100), f_mul(f_ratio(5, 1000), f_int(late)))
    }
}

pub open spec fn larger(x: nat, y: nat) -> nat {
    if x >= y {
        x
    } else {
        y
    }
}

pub open spec fn smaller(x: nat, y: nat) -> nat {
    if x >= y {
        y
    } else {
        x
    }
}

/// Maximum share of remaining time to use for a single move: a quarter
pub open spec fn quarter(main: u64) -> nat {
    f_mul(f_int(main as nat), f_ratio(25, 100))
}

/// The soft bound of a game with increment, before it is held to the clock: 3.5% of the clock,
/// scaled by the number of the move, and 60% of the increment.
pub open spec fn fischer_soft(main: u64, inc: u64, fullmove_number: nat) -> u64 {
    let base = f_mul(f_mul(f_int(main as nat), f_ratio(35, 1000)), move_factor(fullmove_number));
    let bonus = f_mul(f_int(inc as nat), f_ratio(6, 10));
    f_trunc(larger(f_add(base, bonus), f_int(MIN_THINK_TIME_MS as nat)))
}

/// The hard bound of a game with increment, before it is held to the clock: four times the soft
/// bound, but no more than a quarter of the clock.
pub open spec fn fischer_hard(main: u64, soft_bound: u64) -> u64 {
    f_trunc(smaller(f_mul(f_int(soft_bound as nat), f_int(4)), quarter(main)))
}

/// An even share of the clock for one move: 5% of it where the number of moves is not known.
pub open spec fn share(main: u64, moves: u64) -> nat {
    if moves > 0 {
        f_div(f_int(main as nat), f_int(moves as nat))
    } else {
        f_mul(f_int(main as nat), f_ratio(5, 100))
    }
}

/// The soft bound of a game with a number of moves to go: 80% of the share and 60% of the
/// increment.
pub open spec fn cyclic_soft(main: u64, inc: u64, moves: u64) -> u64 {
    f_trunc(
        larger(
            f_add(f_mul(share(main, moves), f_ratio(8, 10)), f_mul(f_int(inc as nat), f_ratio(6, 10))),
            f_int(MIN_THINK_TIME_MS as nat),
        ),
    )
}

/// The hard bound of a game with a number of moves to go: 3.5 shares and 80% of the increment,
/// but no more than a quarter of the clock.
pub open spec fn cyclic_hard(main: u64, inc: u64, moves: u64) -> u64 {
    f_trunc(
        smaller(
            f_add(f_mul(share(main, moves), f_ratio(35, 10)), f_mul(f_int(inc as nat), f_ratio(8, 10))),
            quarter(main),
        ),
    )
}

/// The most that a hard bound may be: a quarter of the clock, as long as that leaves the minimum
/// thinking time.
pub open spec fn hard_cap(main: u64) -> u64 {
    larger(f_trunc(quarter(main)) as nat, MIN_THINK_TIME_MS as nat) as u64
}

/// The most that a soft bound may be: it leaves room for the margin below the most that a hard
/// bound may be, as long as that leaves the minimum thinking time.
pub open spec fn soft_cap(main: u64) -> u64 {
    if hard_cap(main) >= MIN_THINK_TIME_MS + HARD_MARGIN_MS {
        (hard_cap(main) - HARD_MARGIN_MS) as u64
    } else {
        MIN_THINK_TIME_MS
    }
}

/// The soft bound, held to its cap and to the clock.
pub open spec fn capped_soft(soft_bound: u64, main: u64) -> u64 {
    smaller(smaller(soft_bound as nat, soft_cap(main) as nat), main as nat) as u64
}

/// The hard bound: at least a tenth of a second past the soft bound, but held to its cap and to
/// the clock.
pub open spec fn capped_hard(soft: u64, hard_bound: u64, main: u64) -> u64 {
    let wanted = if hard_bound >= soft + HARD_MARGIN_MS {
        hard_bound as int
    } else {
        soft + HARD_MARGIN_MS
    };
    smaller(smaller(wanted as nat, hard_cap(main) as nat), main as nat) as u64
}

/// The soft and the hard bound, in milliseconds, that limits set for a move.
pub open spec fn bounds(limits: Limits, fullmove_number: usize, move_overhead: u64) -> (u64, u64) {
    match limits {
        Limits::Time(ms) => (ms, ms),
        Limits::Fischer(main, inc) => {
            let left = clock_left(main, move_overhead);
            let soft_bound = fischer_soft(left, inc, fullmove_number as nat);
            let soft = capped_soft(soft_bound, left);
            (soft, capped_hard(soft, fischer_hard(left, soft_bound), left))
        },
        Limits::Cyclic(main, inc, moves) => {
            let left = clock_left(main, move_overhead);
            let soft = capped_soft(cyclic_soft(left, inc, moves), left);
            (soft, capped_hard(soft, cyclic_hard(left, inc, moves), left))
        },
        _ => (u64::MAX, u64::MAX),
    }
}

/// What the endgame takes off the factor is at most a quarter, and leaves more than a quarter.
pub proof fn lemma_late_discount(late: nat)
    requires
        late <= 20,
    ensures
        f_mul(f_ratio(5, 1000), f_int(late)) <= pow2(1072),
        f_ratio(85, 100) >= pow2(1073),
        pow2(1073) == 2 * pow2(1072),
        pow2(1072) > 0,
{
    lemma2_to64();
    lemma_pow2_pos(1072);
    lemma_pow2_unfold(1073);
    f_ratio_monotone(5, 1000, 1, 128);
    f_ratio_exact(1, 7, 128);
    f_int_monotone(late, 32);
    f_int_exact(32);
    lemma_pow2_adds(5, 1074);
    f_mul_monotone(f_ratio(5, 1000), f_int(late), 1 * pow2(1067), pow2(1079));
    f_mul_exact(1, 1067, 1079);
    f_ratio_monotone(1, 2, 85, 100);
    f_ratio_exact(1, 1, 2);
}

/// `move_factor` as it is computed.
fn move_factor_of(fullmove_number: usize) -> (r: Binary64)
    ensures
        r.wf(),
        r@ == move_factor(fullmove_number as nat),
        860 <= r.exponent() <= 1100,
{
    if fullmove_number <= 10 {
        Binary64::ratio(12, 10)
    } else if fullmove_number <= 40 {
        Binary64::from_u64(1)
    } else {
        let late: u64 = if fullmove_number <= 60 { (fullmove_number - 40) as u64 } else { 20 };
        let whole = Binary64::ratio(85, 100);
        let less = Binary64::ratio(5, 1000).times(Binary64::from_u64(late));
        proof {
            lemma_late_discount(late as nat);
        }
        whole.minus(less)
    }
}

fn fischer_soft_of(main: u64, inc: u64, fullmove_number: usize) -> (r: u64)
    ensures
        r == fischer_soft(main, inc, fullmove_number as nat),
{
    let base_time = Binary64::from_u64(main).times(Binary64::ratio(35, 1000)).times(
        move_factor_of(fullmove_number),
    );
    let inc_bonus = Binary64::from_u64(inc).times(Binary64::ratio(6, 10));
    base_time.plus(inc_bonus).max(Binary64::from_u64(MIN_THINK_TIME_MS)).trunc()
}

fn fischer_hard_of(main: u64, soft_bound: u64) -> (r: u64)
    ensures
        r == fischer_hard(main, soft_bound),
{
    let four = Binary64::from_u64(soft_bound).times(Binary64::from_u64(4));
    let quarter = Binary64::from_u64(main).times(Binary64::ratio(25, 100));
    four.min(quarter).trunc()
}

fn share_of(main: u64, moves: u64) -> (r: Binary64)
    ensures
        r.wf(),
        r@ == share(main, moves),
        860 <= r.exponent() <= 1200,
{
    if moves > 0 {
        let m = Binary64::from_u64(main);
        let k = Binary64::from_u64(moves);
        proof {
            f_int_exact(1);
            f_int_monotone(1, moves as nat);
            lemma_pow2_pos(1074);
        }
        m.over(k)
    } else {
        Binary64::from_u64(main).times(Binary64::ratio(5, 100))
    }
}

fn cyclic_soft_of(main: u64, inc: u64, moves: u64) -> (r: u64)
    ensures
        r == cyclic_soft(main, inc, moves),
{
    let base = share_of(main, moves).times(Binary64::ratio(8, 10));
    let bonus = Binary64::from_u64(inc).times(Binary64::ratio(6, 10));
    base.plus(bonus).max(Binary64::from_u64(MIN_THINK_TIME_MS)).trunc()
}

fn cyclic_hard_of(main: u64, inc: u64, moves: u64) -> (r: u64)
    ensures
        r == cyclic_hard(main, inc, moves),
{
    let base = share_of(main, moves).times(Binary64::ratio(35, 10));
    let bonus = Binary64::from_u64(inc).times(Binary64::ratio(8, 10));
    let quarter = Binary64::from_u64(main).times(Binary64::ratio(25, 100));
    base.plus(bonus).min(quarter).trunc()
}

fn hard_cap_of(main: u64) -> (r: u64)
    ensures
        r == hard_cap(main),
{
    let quarter: u64 = Binary64::from_u64(main).times(Binary64::ratio(25, 100)).trunc();
    quarter.max(MIN_THINK_TIME_MS)
}

fn soft_cap_of(main: u64) -> (r: u64)
    ensures
        r == soft_cap(main),
        r + HARD_MARGIN_MS <= u64::MAX,
{
    let most: u64 = hard_cap_of(main);
    if most >= MIN_THINK_TIME_MS + HARD_MARGIN_MS {
        most - HARD_MARGIN_MS
    } else {
        MIN_THINK_TIME_MS
    }
}

/// What is planned for a move: the limits, and the bounds in nanoseconds.
#[verifier::ext_equal]
pub struct TimePlan {
    pub limits: Limits,
    pub soft_bound: nat,
    pub hard_bound: nat,
    /// Total time allocated for this move (for more accurate reporting)
    pub allocated_time: nat,
}

/// The nanoseconds of a bound in milliseconds, less the overhead.
pub open spec fn net(ms: u64) -> nat {
    millis(
        if ms >= TIME_OVERHEAD_MS {
            ms - TIME_OVERHEAD_MS
        } else {
            0
        },
    )
}

/// The plan for a move under limits that apply from now.
pub open spec fn plan(limits: Limits, fullmove_number: usize, move_overhead: u64) -> TimePlan {
    let (soft, hard) = bounds(limits, fullmove_number, move_overhead);
    TimePlan { limits, soft_bound: net(soft), hard_bound: net(hard), allocated_time: net(soft) }
}

/// The plan after the opponent has played the expected move: a new one for the actual limits, if
/// the thinking so far was on the opponent's time, and otherwise the same.
pub open spec fn after_ponderhit(
    before: TimePlan,
    limits: Limits,
    fullmove_number: usize,
    move_overhead: u64,
) -> TimePlan {
    if before.limits is Ponder {
        plan(limits, fullmove_number, move_overhead)
    } else {
        before
    }
}

/// Whether the soft bound of the plan is what an iteration is held to.
pub open spec fn uses_soft_bound(limits: Limits) -> bool {
    limits is Fischer || limits is Cyclic || limits is Ponder
}

/// Whether no new iteration should start, `elapsed` nanoseconds into the move and with `scaled`
/// nanoseconds for the soft bound as the search has scaled it.
pub open spec fn soft_stop(plan: TimePlan, total_nodes: u64, elapsed: nat, scaled: nat) -> bool {
    match plan.limits {
        Limits::Infinite | Limits::Depth(_) => false,
        Limits::Nodes(maximum) => total_nodes >= maximum,
        Limits::Time(maximum) => elapsed >= millis(maximum as int),
        _ => elapsed >= scaled,
    }
}

/// Whether the search must stop, `elapsed` nanoseconds into the move. The clock counts at every
/// 2048th node only, and nothing counts before the first iteration is complete.
pub open spec fn hard_stop(
    plan: TimePlan,
    completed_depth: i32,
    nodes: u64,
    total_nodes: u64,
    elapsed: nat,
) -> bool {
    completed_depth != 0 && match plan.limits {
        Limits::Infinite | Limits::Depth(_) => false,
        Limits::Nodes(maximum) => total_nodes > maximum,
        _ => nodes % 2048 == 2047 && elapsed >= plan.hard_bound,
    }
}

/// Whether more than 80% of the allocated time is used, `elapsed` nanoseconds into the move.
pub open spec fn trouble(plan: TimePlan, elapsed: nat) -> bool {
    5 * elapsed > 4 * plan.allocated_time
}

/// What is left of the soft bound, `elapsed` nanoseconds into the move.
pub open spec fn remaining(plan: TimePlan, elapsed: nat) -> nat {
    if plan.soft_bound >= elapsed {
        (plan.soft_bound - elapsed) as nat
    } else {
        0
    }
}

pub struct TimeManager {
    limits: Limits,
    start_time: Instant,
    soft_bound: Duration,
    hard_bound: Duration,
    allocated_time: Duration,
}

impl View for TimeManager {
    type V = TimePlan;

    closed spec fn view(&self) -> TimePlan {
        TimePlan {
            limits: self.limits,
            soft_bound: self.soft_bound@,
            hard_bound: self.hard_bound@,
            allocated_time: self.allocated_time@,
        }
    }
}

impl Clone for TimeManager {
    fn clone(&self) -> (r: Self)
        ensures
            r == *self,
    {
        TimeManager {
            limits: self.limits.clone(),
            start_time: self.start_time,
            soft_bound: self.soft_bound,
            hard_bound: self.hard_bound,
            allocated_time: self.allocated_time,
        }
    }
}

impl TimeManager {
    /// The reading of the clock from which the time of the move counts.
    pub closed spec fn started(self) -> Instant {
        self.start_time
    }

    /// Whether the start is what a reading of the clock gave.
    pub closed spec fn clock_was_read(self) -> bool {
        call_ensures(now, (), self.start_time)
    }

    /// Whether a length of time is what the clock gave as passed since the start.
    pub closed spec fn read_off(self, passed: Duration) -> bool {
        call_ensures(since, (&self.start_time,), passed)
    }

    /// Plans a move under `limits` and starts the clock.
    pub fn new(limits: Limits, fullmove_number: usize, move_overhead: u64) -> (r: Self)
        ensures
            r@ == plan(limits, fullmove_number, move_overhead),
            r.clock_was_read(),
    {
        TimeManager::new_at(limits, fullmove_number, move_overhead, now())
    }

    /// Plans a move under `limits`, the time of which counts from `at`.
    pub fn new_at(limits: Limits, fullmove_number: usize, move_overhead: u64, at: Instant) -> (r:
        Self)
        ensures
            r@ == plan(limits, fullmove_number, move_overhead),
            r.started() == at,
    {
        let (soft, hard, real_limits) = TimeManager::compute_bounds(
            &limits,
            fullmove_number,
            move_overhead,
        );
        let soft_dur = Duration::from_millis(soft.saturating_sub(TIME_OVERHEAD_MS));
        let hard_dur = Duration::from_millis(hard.saturating_sub(TIME_OVERHEAD_MS));
        TimeManager {
            limits: real_limits,
            start_time: at,
            soft_bound: soft_dur,
            hard_bound: hard_dur,
            allocated_time: soft_dur,
        }
    }

    /// The soft and the hard bound for a move, in milliseconds, and the limits that they hold
    /// for.
    pub fn compute_bounds(limits: &Limits, fullmove_number: usize, move_overhead: u64) -> (r: (
        u64,
        u64,
        Limits,
    ))
        ensures
            (r.0, r.1) == bounds(*limits, fullmove_number, move_overhead),
            r.2 == *limits,
        decreases limits,
    {
        match limits {
            Limits::Time(ms) => (*ms, *ms, limits.clone()),
            Limits::Fischer(main, inc) => {
                let main: u64 = (*main).saturating_sub(move_overhead);
                let soft_bound: u64 = fischer_soft_of(main, *inc, fullmove_number);
                let hard_bound: u64 = fischer_hard_of(main, soft_bound);
                // Cap soft bound to ensure we don't use too much time
                let soft: u64 = soft_bound.min(soft_cap_of(main)).min(main);
                let hard: u64 = hard_bound.max(soft + HARD_MARGIN_MS).min(hard_cap_of(main)).min(
                    main,
                );
                (soft, hard, limits.clone())
            },
            Limits::Cyclic(main, inc, moves_to_go) => {
                let main: u64 = (*main).saturating_sub(move_overhead);
                let soft_bound: u64 = cyclic_soft_of(main, *inc, *moves_to_go);
                let hard_bound: u64 = cyclic_hard_of(main, *inc, *moves_to_go);
                let soft: u64 = soft_bound.min(soft_cap_of(main)).min(main);
                let hard: u64 = hard_bound.max(soft + HARD_MARGIN_MS).min(hard_cap_of(main)).min(
                    main,
                );
                (soft, hard, limits.clone())
            },
            Limits::Ponder(inner) => {
                // During pondering, we use infinite time until ponderhit
                let (_, _, inner_limits) = TimeManager::compute_bounds(
                    inner,
                    fullmove_number,
                    move_overhead,
                );
                (u64::MAX, u64::MAX, Limits::Ponder(Box::new(inner_limits)))
            },
            _ => (u64::MAX, u64::MAX, limits.clone()),
        }
    }

    /// Plans anew for the actual limits, and restarts the clock, if the thinking so far was on
    /// the opponent's time.
    pub fn ponderhit(&mut self, limits: Limits, fullmove_number: usize, move_overhead: u64)
        ensures
            final(self)@ == after_ponderhit(old(self)@, limits, fullmove_number, move_overhead),
            old(self)@.limits is Ponder ==> final(self).clock_was_read(),
            !(old(self)@.limits is Ponder) ==> *final(self) == *old(self),
    {
        if let Limits::Ponder(_) = self.limits {
            self.ponderhit_at(limits, fullmove_number, move_overhead, now());
        }
    }

    /// Plans anew for the actual limits, and lets the time of the move count from `at`, if the
    /// thinking so far was on the opponent's time.
    pub fn ponderhit_at(
        &mut self,
        limits: Limits,
        fullmove_number: usize,
        move_overhead: u64,
        at: Instant,
    )
        ensures
            final(self)@ == after_ponderhit(old(self)@, limits, fullmove_number, move_overhead),
            old(self)@.limits is Ponder ==> final(self).started() == at,
            !(old(self)@.limits is Ponder) ==> *final(self) == *old(self),
    {
        if let Limits::Ponder(_) = self.limits {
            *self = TimeManager::new_at(limits, fullmove_number, move_overhead, at);
        }
    }

    /// The time since the plan was made, which callers can turn into a [`std::time::Duration`]
    /// without loss. How long it is depends on when it is asked for, and nothing is claimed of
    /// that.
    pub fn elapsed(&self) -> (r: Duration)
        ensures
            self.read_off(r),
            measurable(r@),
    {
        since(&self.start_time)
    }

    /// The soft bound.
    pub fn soft_bound(&self) -> (r: Duration)
        ensures
            r@ == self@.soft_bound,
    {
        self.soft_bound
    }

    /// The hard bound.
    pub fn hard_bound(&self) -> (r: Duration)
        ensures
            r@ == self@.hard_bound,
    {
        self.hard_bound
    }

    /// Total time allocated for this move (for more accurate reporting)
    pub fn allocated_time(&self) -> (r: Duration)
        ensures
            r@ == self@.allocated_time,
    {
        self.allocated_time
    }

    /// Whether no new iteration should start, given the time passed and the soft bound as the
    /// search has scaled it.
    pub fn soft_limit_after(&self, td: &ThreadData, elapsed: Duration, scaled: Duration) -> (r: bool)
        ensures
            r == soft_stop(self@, td.shared_nodes, elapsed@, scaled@),
    {
        match self.limits {
            Limits::Infinite | Limits::Depth(_) => false,
            Limits::Nodes(maximum) => td.shared_nodes >= maximum,
            Limits::Time(maximum) => elapsed.at_least(Duration::from_millis(maximum)),
            _ => elapsed.at_least(scaled),
        }
    }

    /// Whether no new iteration should start. Where the soft bound counts, `scale` is handed the
    /// soft bound and gives back what to compare the time passed with.
    pub fn soft_limit<F: Fn(Duration) -> Duration>(&self, td: &ThreadData, scale: F) -> (r: bool)
        requires
            uses_soft_bound(self@.limits) ==> forall|bound: Duration|
                bound@ == self@.soft_bound ==> #[trigger] call_requires(scale, (bound,)),
        ensures
            exists|elapsed: Duration, scaled: Duration|
                #![trigger self.read_off(elapsed), soft_stop(self@, td.shared_nodes, elapsed@, scaled@)]
                self.read_off(elapsed) && r == soft_stop(
                    self@,
                    td.shared_nodes,
                    elapsed@,
                    scaled@,
                ) && (uses_soft_bound(self@.limits) ==> exists|bound: Duration|
                    bound@ == self@.soft_bound && #[trigger] call_ensures(
                        scale,
                        (bound,),
                        scaled,
                    )),
    {
        let elapsed = self.elapsed();
        let scaled = match self.limits {
            Limits::Fischer(_, _) | Limits::Cyclic(_, _, _) | Limits::Ponder(_) => scale(
                self.soft_bound,
            ),
            _ => self.soft_bound,
        };
        let r = self.soft_limit_after(td, elapsed, scaled);
        assert(r == soft_stop(self@, td.shared_nodes, elapsed@, scaled@));
        r
    }

    /// Whether the search must stop, given the time passed.
    pub fn check_time_after(&self, td: &ThreadData, elapsed: Duration) -> (r: bool)
        ensures
            r == hard_stop(self@, td.completed_depth, td.nodes, td.shared_nodes, elapsed@),
    {
        if td.completed_depth == 0 {
            return false;
        }
        match self.limits {
            Limits::Infinite | Limits::Depth(_) => false,
            Limits::Nodes(maximum) => td.shared_nodes > maximum,
            _ => {
                let nodes: u64 = td.nodes;
                assert(nodes & 2047 == nodes % 2048) by (bit_vector);
                nodes & 2047 == 2047 && elapsed.at_least(self.hard_bound)
            },
        }
    }

    /// Whether the search must stop.
    pub fn check_time(&self, td: &ThreadData) -> (r: bool)
        ensures
            exists|elapsed: Duration| #[trigger]
                self.read_off(elapsed) && r == hard_stop(
                    self@,
                    td.completed_depth,
                    td.nodes,
                    td.shared_nodes,
                    elapsed@,
                ),
    {
        self.check_time_after(td, self.elapsed())
    }

    /// The limits of the plan.
    pub fn limits(&self) -> (r: Limits)
        ensures
            r == self@.limits,
    {
        self.limits.clone()
    }

    /// Whether more than 80% of the allocated time is used, given the time passed.
    pub fn in_time_trouble_after(&self, elapsed: Duration) -> (r: bool)
        ensures
            r == trouble(self@, elapsed@),
    {
        let allocated: u128 = self.allocated_time.as_nanos();
        let used: u128 = elapsed.as_nanos();
        if used >= allocated {
            used > 0
        } else {
            // Less than a fifth of the allocated time is left.
            allocated - used <= (allocated - 1) / 5
        }
    }

    /// Returns true if we're in time trouble (using more than 80% of allocated time)
    pub fn in_time_trouble(&self) -> (r: bool)
        ensures
            exists|elapsed: Duration| #[trigger]
                self.read_off(elapsed) && r == trouble(self@, elapsed@),
    {
        self.in_time_trouble_after(self.elapsed())
    }

    /// What is left of the soft bound, given the time passed.
    pub fn remaining_time_after(&self, elapsed: Duration) -> (r: Duration)
        ensures
            r@ == remaining(self@, elapsed@),
    {
        self.soft_bound.saturating_sub(elapsed)
    }

    /// Returns the remaining time in the soft bound
    pub fn remaining_time(&self) -> (r: Duration)
        ensures
            exists|elapsed: Duration| #[trigger]
                self.read_off(elapsed) && r@ == remaining(self@, elapsed@),
    {
        self.remaining_time_after(self.elapsed())
    }
}

/// A manager is told by its plan and its start: two with the same plan that count from the same
/// reading of the clock are the same.
pub proof fn plan_and_start_tell_all(a: TimeManager, b: TimeManager)
    requires
        a@ == b@,
        a.started() == b.started(),
    ensures
        a == b,
{
    same_nanos(a.soft_bound, b.soft_bound);
    same_nanos(a.hard_bound, b.hard_bound);
    same_nanos(a.allocated_time, b.allocated_time);
}

} // verus!
