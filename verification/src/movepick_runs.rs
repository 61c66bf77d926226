//! What holds of the moves that a picker gives out one after the other: where they come from, and
//! the order in which they come.
use crate::board::{an_exchange_is_worth_its_gain, first_exchange, unscored};
use crate::movepick::{
    best, consistent, drawn_from, fresh, generate_quiet, lemma_best, next_bad, next_move,
    next_noisy, next_quiet, noisy_ok, pick_noisy, pick_quiet, ready, required_worth, scorable,
    scored_noisy, scored_quiet, with_captures, PickerState, Stage,
};
use crate::movepick_laws::{
    captures, each_call_picks_one, eligible_captures, eligible_noisy, every_move_once,
    good_captures_come_best_first, hash_move_comes_first_and_once, is_best_of,
    lemma_left_of_noisy, lemma_left_of_quiet, lemma_pick_noisy, lemma_pick_quiet, moves_of,
    not_hash_move, others, pending, quiet_moves_come_best_first, run, same_moves, scorable_moves_are_enough,
    the_stage_tells_where_a_move_comes_from, uniform, Call,
};
use crate::scoring::{noisy_fits, noisy_score, quiet_fits, quiet_score};
use crate::thread::ThreadData;
use crate::types::Move;
use vstd::prelude::*;

verus! {

/// A move that a picker gives out, and the stage that it is in then.
pub struct Pick {
    pub stage: Stage,
    pub mv: Move,
}

/// What a picker gives out in a number of calls.
pub open spec fn picks(s: PickerState, calls: Seq<Call>) -> Seq<Pick>
    decreases calls.len(),
{
    if calls.len() == 0 {
        Seq::empty()
    } else {
        let c = calls[0];
        match next_move(s, c.td, c.root, c.skip_quiets, c.ply) {
            (t, Some(mv)) => seq![Pick { stage: t.stage, mv }] + picks(t, calls.drop_first()),
            (t, None) => Seq::empty(),
        }
    }
}

/// A run is what is picked, without the stages.
pub proof fn a_run_is_what_is_picked(s: PickerState, calls: Seq<Call>)
    ensures
        run(s, calls) == picks(s, calls).map_values(|p: Pick| p.mv),
    decreases calls.len(),
{
    if calls.len() > 0 {
        let c = calls[0];
        let (t, r) = next_move(s, c.td, c.root, c.skip_quiets, c.ply);
        if r is Some {
            a_run_is_what_is_picked(t, calls.drop_first());
        }
    }
    assert(run(s, calls) =~= picks(s, calls).map_values(|p: Pick| p.mv));
}

/// The score that a capture gets when it is scored.
pub open spec fn rated(td: ThreadData, mv: Move) -> i32 {
    noisy_score(td, mv) as i32
}

/// The score that a quiet move gets when it is scored.
pub open spec fn rated_quiet(td: ThreadData, ply: isize, mv: Move) -> i32 {
    quiet_score(td, ply, mv) as i32
}

// Where moves come from

/// Whether two threads have the same moves before them, with the same exchanges, whatever they
/// have learned.
pub open spec fn same_board(a: ThreadData, b: ThreadData) -> bool {
    same_moves(a, b) && a.board.exchanges@ == b.board.exchanges@
}

/// Whether a score is one that a capture gets by what is known in one of the calls.
pub open spec fn scored_in(calls: Seq<Call>, mv: Move, score: i32) -> bool {
    exists|k: int| 0 <= k < calls.len() && score == rated((#[trigger] calls[k]).td, mv)
}

/// Whether a capture is judged in a certain way, by a score that it gets in one of the calls.
pub open spec fn judged(
    calls: Seq<Call>,
    td: ThreadData,
    threshold: Option<i32>,
    mv: Move,
    good: bool,
) -> bool {
    exists|score: i32| #[trigger]
        scored_in(calls, mv, score) && td.board.worth(mv, required_worth(threshold, score as int))
            == good
}

/// Whether what a picker holds comes from where it should: the list from the moves of its stage,
/// captures with a score that they got in one of the calls, and the captures put off from those
/// whose exchange was not worth enough.
pub open spec fn rooted(s: PickerState, td: ThreadData, calls: Seq<Call>) -> bool {
    &&& s.stage == Stage::GoodNoisy ==> forall|i: int|
        0 <= i < s.list.len() ==> td.board.noisy_moves@.contains((#[trigger] s.list[i]).mv)
            && scored_in(calls, s.list[i].mv, s.list[i].score)
    &&& s.stage == Stage::Quiet ==> forall|i: int|
        0 <= i < s.list.len() ==> td.board.quiet_moves@.contains((#[trigger] s.list[i]).mv)
    &&& forall|i: int|
        0 <= i < s.bad_noisy.len() ==> td.board.noisy_moves@.contains(#[trigger] s.bad_noisy[i])
            && judged(calls, td, s.threshold, s.bad_noisy[i], false)
}

/// Picking from the captures puts off only those whose exchange is not worth enough.
proof fn lemma_put_off_rooted(s: PickerState, td: ThreadData, board_td: ThreadData, calls: Seq<Call>)
    requires
        s.stage == Stage::GoodNoisy,
        same_board(td, board_td),
        rooted(s, board_td, calls),
    ensures
        rooted(pick_noisy(s, td).0, board_td, calls),
        pick_noisy(s, td).0.stage == Stage::GoodNoisy,
        pick_noisy(s, td).0.threshold == s.threshold,
    decreases s.list.len(),
{
    if s.list.len() > 0 {
        lemma_best(s.list);
        let b = best(s.list);
        let e = s.list[b];
        let rest = s.list.remove(b);
        assert forall|i: int| 0 <= i < rest.len() implies
            board_td.board.noisy_moves@.contains((#[trigger] rest[i]).mv)
            && scored_in(calls, rest[i].mv, rest[i].score) by {
            let j = if i < b {
                i
            } else {
                i + 1
            };
            assert(rest[i] == s.list[j]);
        }
        let need = required_worth(s.threshold, e.score as int);
        assert(td.board.worth(e.mv, need) == board_td.board.worth(e.mv, need));
        assert(scored_in(calls, e.mv, e.score));
        if e.mv == s.tt_move {
            lemma_put_off_rooted(PickerState { list: rest, ..s }, td, board_td, calls);
        } else if !td.board.worth(e.mv, need) {
            let u = PickerState { list: rest, bad_noisy: s.bad_noisy.push(e.mv), ..s };
            assert(judged(calls, board_td, s.threshold, e.mv, false));
            assert forall|i: int| 0 <= i < u.bad_noisy.len() implies
                board_td.board.noisy_moves@.contains(#[trigger] u.bad_noisy[i]) && judged(
                calls,
                board_td,
                u.threshold,
                u.bad_noisy[i],
                false,
            ) by {
                if i < s.bad_noisy.len() {
                    assert(u.bad_noisy[i] == s.bad_noisy[i]);
                }
            }
            lemma_put_off_rooted(u, td, board_td, calls);
        }
    }
}

/// From the quiet moves on, what a picker holds keeps coming from where it should.
proof fn lemma_next_quiet_rooted(
    s: PickerState,
    c: Call,
    td: ThreadData,
    calls: Seq<Call>,
)
    requires
        s.stage == Stage::Quiet,
        rooted(s, td, calls),
    ensures
        rooted(next_quiet(s, c.td, c.root, c.skip_quiets, c.ply).0, td, calls),
{
    lemma_left_of_quiet(s);
    lemma_pick_quiet(s);
    let v = pick_quiet(s).0;
    let w = scored_quiet(v.list, c.td, c.ply);
    assert forall|i: int| 0 <= i < v.list.len() implies td.board.quiet_moves@.contains(
        (#[trigger] v.list[i]).mv,
    ) by {
        let j = choose|j: int| 0 <= j < s.list.len() && s.list[j] == v.list[i];
        assert(td.board.quiet_moves@.contains(s.list[j].mv));
    }
    assert forall|i: int| 0 <= i < w.len() implies td.board.quiet_moves@.contains(
        (#[trigger] w[i]).mv,
    ) by {
        assert(w[i].mv == v.list[i].mv);
    }
}

/// The quiet moves come from those generated.
proof fn lemma_generated_quiets(v: PickerState, c: Call, td: ThreadData, calls: Seq<Call>)
    requires
        v.list.len() == 0,
        same_moves(c.td, td),
        rooted(v, td, calls),
    ensures
        rooted(generate_quiet(v, c.td, c.root, c.skip_quiets, c.ply).0, td, calls),
{
    let all = v.list + unscored(c.td.board.quiet_moves@);
    let w = PickerState { stage: Stage::Quiet, list: scored_quiet(all, c.td, c.ply), ..v };
    assert forall|i: int| 0 <= i < w.list.len() implies td.board.quiet_moves@.contains(
        (#[trigger] w.list[i]).mv,
    ) by {
        assert(w.list[i].mv == td.board.quiet_moves@[i]);
    }
    lemma_next_quiet_rooted(w, c, td, calls);
}

/// Generated captures come from those of the position, with the score that they get.
proof fn lemma_captures_rooted(s: PickerState, c: Call, td: ThreadData, calls: Seq<Call>)
    requires
        consistent(s),
        s.stage.number() <= 2,
        same_board(c.td, td),
        calls.contains(c) || s.stage == Stage::GoodNoisy,
        rooted(s, td, calls),
    ensures
        rooted(with_captures(s, c.td), td, calls),
{
    let u = with_captures(s, c.td);
    if s.stage != Stage::GoodNoisy {
        let k = choose|k: int| 0 <= k < calls.len() && calls[k] == c;
        assert forall|i: int| 0 <= i < u.list.len() implies td.board.noisy_moves@.contains(
            (#[trigger] u.list[i]).mv,
        ) && scored_in(calls, u.list[i].mv, u.list[i].score) by {
            assert(u.list[i].mv == td.board.noisy_moves@[i]);
            assert(u.list[i].score == rated(calls[k].td, u.list[i].mv));
        }
    }
}

/// What a picker holds keeps coming from where it should.
proof fn lemma_stays_rooted(s: PickerState, c: Call, td: ThreadData, calls: Seq<Call>)
    requires
        consistent(s),
        same_board(c.td, td),
        calls.contains(c) || (s.stage.number() >= 2 && !c.root),
        rooted(s, td, calls),
    ensures
        rooted(next_move(s, c.td, c.root, c.skip_quiets, c.ply).0, td, calls),
{
    if s.stage == Stage::HashMove && c.td.board.legal(s.tt_move) {
    } else if s.stage.number() <= 2 {
        let u = with_captures(s, c.td);
        lemma_captures_rooted(s, c, td, calls);
        lemma_put_off_rooted(u, c.td, td, calls);
        lemma_pick_noisy(u, c.td);
        let (v, r) = pick_noisy(u, c.td);
        assert(next_move(s, c.td, c.root, c.skip_quiets, c.ply) == next_noisy(
            u,
            c.td,
            c.root,
            c.skip_quiets,
            c.ply,
        ));
        if r is Some && c.root {
            let w = scored_noisy(v.list, c.td);
            let k = choose|k: int| 0 <= k < calls.len() && calls[k] == c;
            assert forall|i: int| 0 <= i < w.len() implies td.board.noisy_moves@.contains(
                (#[trigger] w[i]).mv,
            ) && scored_in(calls, w[i].mv, w[i].score) by {
                assert(w[i].mv == v.list[i].mv);
                assert(w[i].score == rated(calls[k].td, w[i].mv));
            }
        } else if r is None && !c.skip_quiets {
            lemma_generated_quiets(v, c, td, calls);
        }
    } else if s.stage == Stage::Quiet {
        lemma_next_quiet_rooted(s, c, td, calls);
    }
}

/// Where a move comes from that a picker made with `tt_move` and `threshold` gives out: before
/// the captures are generated it is the hash move; as a good capture it is a generated capture
/// whose exchange was found to be worth enough; as a quiet move it was generated as one; and at
/// the end it is a generated capture whose exchange was found not to be worth enough. After its
/// own stage it is not the hash move.
pub open spec fn comes_from(
    p: Pick,
    tt_move: Move,
    threshold: Option<i32>,
    td: ThreadData,
    calls: Seq<Call>,
) -> bool {
    match p.stage {
        Stage::GenerateNoisy => p.mv == tt_move && td.board.legal(p.mv),
        Stage::GoodNoisy => {
            &&& p.mv != tt_move
            &&& td.board.noisy_moves@.contains(p.mv)
            &&& judged(calls, td, threshold, p.mv, true)
        },
        Stage::Quiet => p.mv != tt_move && td.board.quiet_moves@.contains(p.mv),
        Stage::BadNoisy => {
            &&& p.mv != tt_move
            &&& td.board.noisy_moves@.contains(p.mv)
            &&& judged(calls, td, threshold, p.mv, false)
        },
        _ => false,
    }
}

/// What one call picks comes from where its stage says.
proof fn lemma_one_pick(s: PickerState, c: Call, td: ThreadData, calls: Seq<Call>)
    requires
        consistent(s),
        same_board(c.td, td),
        calls.contains(c) || (s.stage.number() >= 2 && !c.root),
        rooted(s, td, calls),
    ensures
        ({
            let (t, r) = next_move(s, c.td, c.root, c.skip_quiets, c.ply);
            r matches Some(mv) ==> comes_from(
                Pick { stage: t.stage, mv },
                s.tt_move,
                s.threshold,
                td,
                calls,
            )
        }),
{
    each_call_picks_one(s, c.td, c.root, c.skip_quiets, c.ply);
    the_stage_tells_where_a_move_comes_from(s, c.td, c.root, c.skip_quiets, c.ply);
    hash_move_comes_first_and_once(s, c.td, c.root, c.skip_quiets, c.ply);
    lemma_stays_rooted(s, c, td, calls);
    let (t, r) = next_move(s, c.td, c.root, c.skip_quiets, c.ply);
    if r is Some {
        let mv = r->0;
        if t.stage == Stage::GoodNoisy {
            lemma_captures_rooted(s, c, td, calls);
            let all = captures(s, c.td);
            let i = choose|i: int|
                0 <= i < all.len() && eligible_noisy(s, c.td, #[trigger] all[i]) && all[i].mv == mv;
            let e = all[i];
            let need = required_worth(s.threshold, e.score as int);
            assert(with_captures(s, c.td).list[i] == e);
            assert(td.board.worth(mv, need) == c.td.board.worth(mv, need));
            assert(scored_in(calls, mv, e.score));
        } else if t.stage == Stage::Quiet && s.stage == Stage::Quiet {
            let i = choose|i: int| 0 <= i < moves_of(s.list).len() && moves_of(s.list)[i] == mv;
            assert(s.list[i].mv == mv);
        }
    }
}

proof fn lemma_picks_come_from(
    s: PickerState,
    td: ThreadData,
    more: Seq<Call>,
    calls: Seq<Call>,
)
    requires
        consistent(s),
        rooted(s, td, calls),
        forall|i: int| 0 <= i < more.len() ==> same_board((#[trigger] more[i]).td, td),
        forall|i: int|
            0 <= i < more.len() ==> calls.contains(#[trigger] more[i]) || (s.stage.number() >= 2
                && !more[i].root),
    ensures
        forall|i: int|
            0 <= i < picks(s, more).len() ==> comes_from(
                #[trigger] picks(s, more)[i],
                s.tt_move,
                s.threshold,
                td,
                calls,
            ),
    decreases more.len(),
{
    if more.len() > 0 {
        let c = more[0];
        assert(same_board(c.td, td));
        assert(calls.contains(c) || (s.stage.number() >= 2 && !c.root));
        each_call_picks_one(s, c.td, c.root, c.skip_quiets, c.ply);
        lemma_one_pick(s, c, td, calls);
        lemma_stays_rooted(s, c, td, calls);
        let (t, r) = next_move(s, c.td, c.root, c.skip_quiets, c.ply);
        if r is Some {
            let rest = more.drop_first();
            assert forall|i: int| 0 <= i < rest.len() implies same_board(
                (#[trigger] rest[i]).td,
                td,
            ) && (calls.contains(rest[i]) || (t.stage.number() >= 2 && !rest[i].root)) by {
                assert(rest[i] == more[i + 1]);
            }
            lemma_picks_come_from(t, td, rest, calls);
            let p = picks(s, more);
            assert forall|i: int| 0 <= i < p.len() implies comes_from(
                #[trigger] p[i],
                s.tt_move,
                s.threshold,
                td,
                calls,
            ) by {
                if i > 0 {
                    assert(p[i] == picks(t, rest)[i - 1]);
                }
            }
        }
    }
}

/// Over all calls on one board, whatever is learned between them, every move that a new picker
/// gives out comes from where its stage says.
pub proof fn every_pick_comes_from_its_stage(
    tt_move: Move,
    threshold: Option<i32>,
    td: ThreadData,
    calls: Seq<Call>,
)
    requires
        forall|i: int| 0 <= i < calls.len() ==> same_board((#[trigger] calls[i]).td, td),
    ensures
        forall|i: int|
            0 <= i < picks(fresh(tt_move, threshold), calls).len() ==> comes_from(
                #[trigger] picks(fresh(tt_move, threshold), calls)[i],
                tt_move,
                threshold,
                td,
                calls,
            ),
{
    lemma_picks_come_from(fresh(tt_move, threshold), td, calls, calls);
}

// The order in which moves come

/// The number of the call in which a picker first comes to a stage or past it.
pub open spec fn reached(s: PickerState, calls: Seq<Call>, stage: Stage) -> int
    decreases calls.len(),
{
    if calls.len() == 0 {
        0
    } else {
        let c = calls[0];
        let t = next_move(s, c.td, c.root, c.skip_quiets, c.ply).0;
        if t.stage.number() >= stage.number() {
            0
        } else {
            1 + reached(t, calls.drop_first(), stage)
        }
    }
}

/// Whether one pick may come before another: not in a later stage, and in the same stage not with
/// a lower score, where captures are scored by what is known in the call `g`, and quiet moves by
/// what is known in the call `h`.
pub open spec fn may_precede(p: Pick, q: Pick, g: Call, h: Call) -> bool {
    &&& p.stage.number() <= q.stage.number()
    &&& p.stage == q.stage && (p.stage == Stage::GoodNoisy || p.stage == Stage::BadNoisy) ==> rated(
        g.td,
        p.mv,
    ) >= rated(g.td, q.mv)
    &&& p.stage == q.stage && p.stage == Stage::Quiet ==> rated_quiet(h.td, h.ply, p.mv)
        >= rated_quiet(h.td, h.ply, q.mv)
}

/// Whether a picker holds captures with the scores of the call `g`, those put off best first and
/// none of them worse than one in the list.
spec fn ranked(s: PickerState, g: Call) -> bool {
    &&& s.stage == Stage::GoodNoisy ==> forall|i: int|
        0 <= i < s.list.len() ==> (#[trigger] s.list[i]).score == rated(g.td, s.list[i].mv)
    &&& s.stage == Stage::GoodNoisy ==> forall|i: int, j: int|
        0 <= i < s.bad_noisy.len() && 0 <= j < s.list.len() ==> rated(
            g.td,
            #[trigger] s.bad_noisy[i],
        ) >= (#[trigger] s.list[j]).score
    &&& forall|i: int, j: int|
        0 <= i < j < s.bad_noisy.len() ==> rated(g.td, #[trigger] s.bad_noisy[i]) >= rated(
            g.td,
            #[trigger] s.bad_noisy[j],
        )
}

/// Whether a picker holds quiet moves with the scores of the call `h`.
spec fn ranked_quiet(s: PickerState, h: Call) -> bool {
    s.stage == Stage::Quiet ==> forall|i: int|
        0 <= i < s.list.len() ==> (#[trigger] s.list[i]).score == rated_quiet(
            h.td,
            h.ply,
            s.list[i].mv,
        )
}

/// Whether a pick can still come from a picker past the generation of captures.
spec fn in_store(s: PickerState, p: Pick) -> bool {
    &&& s.stage.number() <= p.stage.number()
    &&& p.stage == s.stage && s.stage != Stage::BadNoisy ==> exists|i: int|
        0 <= i < s.list.len() && (#[trigger] s.list[i]).mv == p.mv
    &&& p.stage == Stage::BadNoisy && s.stage != Stage::GoodNoisy ==> exists|i: int|
        s.bad_noisy_idx <= i < s.bad_noisy.len() && #[trigger] s.bad_noisy[i] == p.mv
}

/// What a call away from the root does to the order: what it picks was in store, what is left in
/// store was so before, and may come after it.
spec fn keeps_order(s: PickerState, outcome: (PickerState, Option<Move>), g: Call, h: Call) -> bool {
    let (t, r) = outcome;
    r matches Some(mv) ==> {
        let first = Pick { stage: t.stage, mv };
        &&& t.stage.number() >= 2
        &&& ranked(t, g)
        &&& ranked_quiet(t, h)
        &&& in_store(s, first)
        &&& forall|p: Pick| #[trigger] in_store(t, p) ==> in_store(s, p) && may_precede(first, p, g, h)
    }
}

/// Picking from the captures keeps them ranked, and picks one that no other left is better than.
proof fn lemma_pick_noisy_ranked(s: PickerState, td: ThreadData, g: Call)
    requires
        s.stage == Stage::GoodNoisy,
        ranked(s, g),
    ensures
        ({
            let (t, r) = pick_noisy(s, td);
            &&& t.stage == Stage::GoodNoisy
            &&& ranked(t, g)
            &&& r matches Some(mv) ==> forall|i: int|
                0 <= i < t.list.len() ==> (#[trigger] t.list[i]).score <= rated(g.td, mv)
        }),
    decreases s.list.len(),
{
    if s.list.len() > 0 {
        lemma_best(s.list);
        let b = best(s.list);
        let e = s.list[b];
        let rest = s.list.remove(b);
        assert forall|i: int| 0 <= i < rest.len() implies (#[trigger] rest[i]).score == rated(
            g.td,
            rest[i].mv,
        ) && rest[i].score <= e.score && forall|j: int|
            0 <= j < s.bad_noisy.len() ==> rated(g.td, #[trigger] s.bad_noisy[j]) >= rest[i].score by {
            let k = if i < b {
                i
            } else {
                i + 1
            };
            assert(rest[i] == s.list[k]);
        }
        if e.mv == s.tt_move {
            lemma_pick_noisy_ranked(PickerState { list: rest, ..s }, td, g);
        } else if !td.board.worth(e.mv, required_worth(s.threshold, e.score as int)) {
            let u = PickerState { list: rest, bad_noisy: s.bad_noisy.push(e.mv), ..s };
            let n = s.bad_noisy.len();
            assert forall|i: int, j: int| 0 <= i < j < u.bad_noisy.len() implies rated(
                g.td,
                #[trigger] u.bad_noisy[i],
            ) >= rated(g.td, #[trigger] u.bad_noisy[j]) by {
                assert(u.bad_noisy[i] == s.bad_noisy[i]);
                if j < n {
                    assert(u.bad_noisy[j] == s.bad_noisy[j]);
                } else {
                    assert(s.list[b].score == rated(g.td, e.mv));
                }
            }
            assert forall|i: int, j: int|
                0 <= i < u.bad_noisy.len() && 0 <= j < u.list.len() implies rated(
                g.td,
                #[trigger] u.bad_noisy[i],
            ) >= (#[trigger] u.list[j]).score by {
                if i < n {
                    assert(u.bad_noisy[i] == s.bad_noisy[i]);
                } else {
                    assert(s.list[b].score == rated(g.td, e.mv));
                }
            }
            lemma_pick_noisy_ranked(u, td, g);
        } else {
            assert(s.list[b].score == rated(g.td, e.mv));
        }
    }
}

/// Picking from the quiet moves picks one that no other left is better than.
proof fn lemma_pick_quiet_ranked(s: PickerState, h: Call)
    requires
        s.stage == Stage::Quiet,
        ranked_quiet(s, h),
    ensures
        ({
            let (t, r) = pick_quiet(s);
            &&& t.stage == Stage::Quiet
            &&& ranked_quiet(t, h)
            &&& r matches Some(mv) ==> forall|i: int|
                0 <= i < t.list.len() ==> (#[trigger] t.list[i]).score <= rated_quiet(
                    h.td,
                    h.ply,
                    mv,
                )
        }),
    decreases s.list.len(),
{
    if s.list.len() > 0 {
        lemma_best(s.list);
        let b = best(s.list);
        let e = s.list[b];
        let rest = s.list.remove(b);
        assert forall|i: int| 0 <= i < rest.len() implies (#[trigger] rest[i]).score
            == rated_quiet(h.td, h.ply, rest[i].mv) && rest[i].score <= e.score by {
            let k = if i < b {
                i
            } else {
                i + 1
            };
            assert(rest[i] == s.list[k]);
        }
        if e.mv == s.tt_move {
            lemma_pick_quiet_ranked(PickerState { list: rest, ..s }, h);
        } else {
            assert(s.list[b].score == rated_quiet(h.td, h.ply, e.mv));
        }
    }
}

proof fn lemma_next_bad_ordered(s: PickerState, g: Call, h: Call)
    requires
        0 <= s.bad_noisy_idx <= s.bad_noisy.len(),
        s.stage == Stage::BadNoisy,
        ranked(s, g),
    ensures
        keeps_order(s, next_bad(s), g, h),
{
}

proof fn lemma_next_quiet_ordered(s: PickerState, c: Call, g: Call, h: Call)
    requires
        s.bad_noisy_idx == 0,
        s.stage == Stage::Quiet,
        ranked(s, g),
        ranked_quiet(s, h),
    ensures
        keeps_order(s, next_quiet(s, c.td, false, c.skip_quiets, c.ply), g, h),
{
    let outcome = next_quiet(s, c.td, false, c.skip_quiets, c.ply);
    let (t, r) = outcome;
    let (v, picked) = pick_quiet(s);
    lemma_pick_quiet(s);
    if !c.skip_quiets && picked is Some {
        let mv = picked->0;
        let first = Pick { stage: t.stage, mv };
        lemma_pick_quiet_ranked(s, h);
        lemma_left_of_quiet(s);
        quiet_moves_come_best_first(s);
        let b = choose|i: int| #[trigger]
            is_best_of(s.list, not_hash_move(s), i) && s.list[i].mv == mv;
        assert(s.list[b].mv == mv);
        assert forall|p: Pick| #[trigger] in_store(t, p) implies in_store(s, p) && may_precede(
            first,
            p,
            g,
            h,
        ) by {
            if p.stage == Stage::Quiet {
                let i = choose|i: int| 0 <= i < t.list.len() && (#[trigger] t.list[i]).mv == p.mv;
                let e = t.list[i];
                assert(s.list.contains(v.list[i]));
                let j = choose|j: int| 0 <= j < s.list.len() && s.list[j] == e;
                assert(s.list[j].mv == p.mv);
            }
        }
    } else {
        let u = if c.skip_quiets {
            PickerState { stage: Stage::BadNoisy, ..s }
        } else {
            PickerState { stage: Stage::BadNoisy, ..v }
        };
        lemma_next_bad_ordered(u, g, h);
        assert forall|p: Pick| in_store(u, p) implies #[trigger] in_store(s, p) by {}
    }
}

/// A call away from the root keeps the order.
proof fn lemma_next_ordered(s: PickerState, c: Call, g: Call, h: Call)
    requires
        consistent(s),
        s.stage.number() >= 2,
        !c.root,
        ranked(s, g),
        ranked_quiet(s, h),
        s.stage == Stage::GoodNoisy && next_move(s, c.td, c.root, c.skip_quiets, c.ply).0.stage
            != Stage::GoodNoisy ==> h == c,
    ensures
        keeps_order(s, next_move(s, c.td, c.root, c.skip_quiets, c.ply), g, h),
{
    let (t, r) = next_move(s, c.td, c.root, c.skip_quiets, c.ply);
    if s.stage == Stage::GoodNoisy {
        lemma_pick_noisy_ranked(s, c.td, g);
        lemma_pick_noisy(s, c.td);
        let (v, picked) = pick_noisy(s, c.td);
        if picked is Some {
            let mv = picked->0;
            let first = Pick { stage: t.stage, mv };
            lemma_left_of_noisy(s, c.td);
            good_captures_come_best_first(s, c.td);
            let b = choose|i: int| #[trigger]
                is_best_of(s.list, eligible_captures(s, c.td), i) && s.list[i].mv == mv;
            assert(s.list[b].mv == mv);
            assert forall|p: Pick| #[trigger] in_store(t, p) implies in_store(s, p) && may_precede(
                first,
                p,
                g,
                h,
            ) by {
                if p.stage == Stage::GoodNoisy {
                    let i = choose|i: int|
                        0 <= i < t.list.len() && (#[trigger] t.list[i]).mv == p.mv;
                    let e = t.list[i];
                    assert(s.list.contains(v.list[i]));
                    let j = choose|j: int| 0 <= j < s.list.len() && s.list[j] == e;
                    assert(s.list[j].mv == p.mv);
                }
            }
        } else if c.skip_quiets {
            let u = PickerState { stage: Stage::BadNoisy, ..v };
            lemma_next_bad_ordered(u, g, h);
            assert forall|p: Pick| in_store(u, p) implies #[trigger] in_store(s, p) by {}
        } else {
            let all = v.list + unscored(c.td.board.quiet_moves@);
            let w = PickerState { stage: Stage::Quiet, list: scored_quiet(all, c.td, c.ply), ..v };
            assert(t.stage != Stage::GoodNoisy) by {
                lemma_pick_quiet(w);
            }
            lemma_next_quiet_ordered(w, c, g, h);
            assert forall|p: Pick| in_store(w, p) implies #[trigger] in_store(s, p) by {}
        }
    } else if s.stage == Stage::Quiet {
        lemma_next_quiet_ordered(s, c, g, h);
    } else {
        lemma_next_bad_ordered(s, g, h);
    }
}

/// Whether no call is made at the root.
pub open spec fn away_from_the_root(calls: Seq<Call>) -> bool {
    forall|i: int| 0 <= i < calls.len() ==> !(#[trigger] calls[i]).root
}

/// Whether every pick may precede those after it.
pub open spec fn in_order(p: Seq<Pick>, g: Call, h: Call) -> bool {
    forall|i: int, j: int| 0 <= i < j < p.len() ==> may_precede(#[trigger] p[i], #[trigger] p[j], g, h)
}

proof fn lemma_in_order(s: PickerState, calls: Seq<Call>, g: Call, h: Call)
    requires
        consistent(s),
        s.stage.number() >= 2,
        away_from_the_root(calls),
        ranked(s, g),
        ranked_quiet(s, h),
        s.stage == Stage::GoodNoisy && reached(s, calls, Stage::Quiet) < calls.len() ==> h
            == calls[reached(s, calls, Stage::Quiet)],
    ensures
        in_order(picks(s, calls), g, h),
        forall|i: int| 0 <= i < picks(s, calls).len() ==> in_store(s, #[trigger] picks(s, calls)[i]),
    decreases calls.len(),
{
    if calls.len() > 0 {
        let c = calls[0];
        let more = calls.drop_first();
        each_call_picks_one(s, c.td, c.root, c.skip_quiets, c.ply);
        let (t, r) = next_move(s, c.td, c.root, c.skip_quiets, c.ply);
        lemma_next_ordered(s, c, g, h);
        if r is Some {
            assert forall|i: int| 0 <= i < more.len() implies !(#[trigger] more[i]).root by {
                assert(more[i] == calls[i + 1]);
            }
            if t.stage == Stage::GoodNoisy {
                lemma_reached(t, more, Stage::Quiet);
                let k = reached(t, more, Stage::Quiet);
                if k < more.len() {
                    assert(more[k] == calls[k + 1]);
                }
            }
            lemma_in_order(t, more, g, h);
            let p = picks(s, calls);
            let rest = picks(t, more);
            assert(forall|i: int| 0 < i < p.len() ==> #[trigger] p[i] == rest[i - 1]);
            assert forall|i: int| 0 <= i < p.len() implies in_store(s, #[trigger] p[i]) by {
                if i > 0 {
                    assert(in_store(t, rest[i - 1]));
                }
            }
            assert forall|i: int, j: int| 0 <= i < j < p.len() implies may_precede(
                #[trigger] p[i],
                #[trigger] p[j],
                g,
                h,
            ) by {
                assert(p[j] == rest[j - 1]);
                assert(in_store(t, rest[j - 1]));
                if i > 0 {
                    assert(p[i] == rest[i - 1]);
                }
            }
        }
    }
}

proof fn lemma_reached(s: PickerState, calls: Seq<Call>, stage: Stage)
    ensures
        0 <= reached(s, calls, stage) <= calls.len(),
    decreases calls.len(),
{
    if calls.len() > 0 {
        let c = calls[0];
        let t = next_move(s, c.td, c.root, c.skip_quiets, c.ply).0;
        lemma_reached(t, calls.drop_first(), stage);
    }
}

/// No stage comes back.
proof fn lemma_stages(s: PickerState, calls: Seq<Call>)
    requires
        consistent(s),
    ensures
        forall|i: int|
            0 <= i < picks(s, calls).len() ==> s.stage.number() <= (#[trigger] picks(
                s,
                calls,
            )[i]).stage.number(),
    decreases calls.len(),
{
    if calls.len() > 0 {
        let c = calls[0];
        let more = calls.drop_first();
        each_call_picks_one(s, c.td, c.root, c.skip_quiets, c.ply);
        let (t, r) = next_move(s, c.td, c.root, c.skip_quiets, c.ply);
        if r is Some {
            lemma_stages(t, more);
            let p = picks(s, calls);
            assert forall|i: int| 0 <= i < p.len() implies s.stage.number() <= (#[trigger] p[i]).stage.number() by {
                if i > 0 {
                    assert(p[i] == picks(t, more)[i - 1]);
                }
            }
        }
    }
}

proof fn lemma_best_first(s: PickerState, calls: Seq<Call>, g: Call, h: Call)
    requires
        consistent(s),
        s.stage.number() <= 1,
        away_from_the_root(calls),
        reached(s, calls, Stage::GoodNoisy) < calls.len() ==> g == calls[reached(
            s,
            calls,
            Stage::GoodNoisy,
        )],
        reached(s, calls, Stage::Quiet) < calls.len() ==> h == calls[reached(
            s,
            calls,
            Stage::Quiet,
        )],
    ensures
        in_order(picks(s, calls), g, h),
    decreases calls.len(),
{
    if calls.len() > 0 {
        let c = calls[0];
        let more = calls.drop_first();
        if s.stage == Stage::HashMove && c.td.board.legal(s.tt_move) {
            let t = PickerState { stage: Stage::GenerateNoisy, ..s };
            assert forall|i: int| 0 <= i < more.len() implies !(#[trigger] more[i]).root by {
                assert(more[i] == calls[i + 1]);
            }
            lemma_reached(t, more, Stage::GoodNoisy);
            lemma_reached(t, more, Stage::Quiet);
            lemma_stages(t, more);
            lemma_best_first(t, more, g, h);
            let p = picks(s, calls);
            let rest = picks(t, more);
            assert forall|i: int, j: int| 0 <= i < j < p.len() implies may_precede(
                #[trigger] p[i],
                #[trigger] p[j],
                g,
                h,
            ) by {
                assert(p[j] == rest[j - 1]);
                if i > 0 {
                    assert(p[i] == rest[i - 1]);
                }
            }
        } else {
            let u = with_captures(s, c.td);
            assert(next_move(s, c.td, c.root, c.skip_quiets, c.ply) == next_move(
                u,
                c.td,
                c.root,
                c.skip_quiets,
                c.ply,
            ));
            each_call_picks_one(u, c.td, c.root, c.skip_quiets, c.ply);
            assert(g == c);
            assert(ranked(u, g));
            lemma_in_order(u, calls, g, h);
            assert(picks(s, calls) == picks(u, calls));
        }
    }
}

/// Away from the root the moves of a picker that has not generated any yet come stage by stage,
/// and in each stage best first: the good captures, and the captures put off, by the scores that
/// they got in the call that generated them, and the quiet moves likewise.
pub proof fn moves_come_best_first(s: PickerState, calls: Seq<Call>)
    requires
        consistent(s),
        s.stage.number() <= 1,
        away_from_the_root(calls),
    ensures
        in_order(
            picks(s, calls),
            calls[reached(s, calls, Stage::GoodNoisy)],
            calls[reached(s, calls, Stage::Quiet)],
        ),
{
    lemma_best_first(
        s,
        calls,
        calls[reached(s, calls, Stage::GoodNoisy)],
        calls[reached(s, calls, Stage::Quiet)],
    );
}

// How captures are judged

/// Whether the gain of an exchange is enough for a capture to be a good one: at least the
/// threshold where one is given, and otherwise 111 less a forty-fifth of the score, rounded
/// towards zero.
pub open spec fn gain_is_enough(gain: int, threshold: Option<i32>, score: int) -> bool {
    match threshold {
        Some(t) => gain >= t,
        None => if score > 0 {
            45 * (gain - 111) >= -score
        } else {
            45 * (gain - 110) > -score
        },
    }
}

/// A capture is judged by the gain of its exchange.
pub proof fn a_capture_is_judged_by_its_gain(
    td: ThreadData,
    mv: Move,
    threshold: Option<i32>,
    score: int,
    x: int,
)
    requires
        first_exchange(td.board, mv, x),
    ensures
        td.board.worth(mv, required_worth(threshold, score)) == gain_is_enough(
            td.board.exchanges@[x].gain as int,
            threshold,
            score,
        ),
{
    an_exchange_is_worth_its_gain(td.board, mv, required_worth(threshold, score));
}

/// A move that is judged good and one that is judged bad, by its gain.
proof fn lemma_judged(
    calls: Seq<Call>,
    td: ThreadData,
    threshold: Option<i32>,
    mv: Move,
    good: bool,
    x: int,
) -> (score: i32)
    requires
        judged(calls, td, threshold, mv, good),
        first_exchange(td.board, mv, x),
    ensures
        scored_in(calls, mv, score),
        gain_is_enough(td.board.exchanges@[x].gain as int, threshold, score as int) == good,
{
    let score = choose|score: i32| #[trigger]
        scored_in(calls, mv, score) && td.board.worth(mv, required_worth(threshold, score as int))
            == good;
    a_capture_is_judged_by_its_gain(td, mv, threshold, score as int, x);
    score
}

/// Whether a picker asked in some calls gives out a move in a stage.
pub open spec fn gives(s: PickerState, calls: Seq<Call>, stage: Stage, mv: Move) -> bool {
    exists|i: int|
        0 <= i < picks(s, calls).len() && (#[trigger] picks(s, calls)[i]).stage == stage && picks(
            s,
            calls,
        )[i].mv == mv
}

/// Asked often enough, a new picker gives out every generated capture other than the hash move,
/// either as a good one or as one put off.
proof fn lemma_every_capture_comes(
    tt_move: Move,
    threshold: Option<i32>,
    td: ThreadData,
    calls: Seq<Call>,
    skip_quiets: bool,
    mv: Move,
)
    requires
        uniform(calls, td, skip_quiets),
        forall|i: int| 0 <= i < calls.len() ==> same_board((#[trigger] calls[i]).td, td),
        calls.len() >= pending(fresh(tt_move, threshold), td, skip_quiets).len(),
        td.board.noisy_moves@.contains(mv),
        !td.board.quiet_moves@.contains(mv),
        mv != tt_move,
    ensures
        gives(fresh(tt_move, threshold), calls, Stage::GoodNoisy, mv) || gives(
            fresh(tt_move, threshold),
            calls,
            Stage::BadNoisy,
            mv,
        ),
{
    let s = fresh(tt_move, threshold);
    every_move_once(s, td, calls, skip_quiets);
    a_run_is_what_is_picked(s, calls);
    every_pick_comes_from_its_stage(tt_move, threshold, td, calls);
    td.board.noisy_moves@.to_multiset_ensures();
    let p = picks(s, calls);
    let r = run(s, calls);
    r.to_multiset_ensures();
    assert(td.board.noisy_moves@.to_multiset().count(mv) > 0);
    assert(others(td.board.noisy_moves@, tt_move).count(mv) > 0);
    assert(pending(s, td, skip_quiets).count(mv) > 0);
    assert(r.contains(mv));
    let i = choose|i: int| 0 <= i < r.len() && r[i] == mv;
    assert(p[i].mv == mv);
    assert(comes_from(p[i], tt_move, threshold, td, calls));
}

/// With a threshold, whichever it is, the gain decides: over all calls on one board a generated
/// capture other than the hash move is given out as a good one exactly where the gain of its
/// exchange is at least the threshold, and otherwise it is put off.
pub proof fn with_a_threshold_the_gain_decides(
    tt_move: Move,
    threshold: i32,
    td: ThreadData,
    calls: Seq<Call>,
    skip_quiets: bool,
    mv: Move,
    x: int,
)
    requires
        uniform(calls, td, skip_quiets),
        forall|i: int| 0 <= i < calls.len() ==> same_board((#[trigger] calls[i]).td, td),
        calls.len() >= pending(fresh(tt_move, Some(threshold)), td, skip_quiets).len(),
        td.board.noisy_moves@.contains(mv),
        !td.board.quiet_moves@.contains(mv),
        mv != tt_move,
        first_exchange(td.board, mv, x),
    ensures
        gives(fresh(tt_move, Some(threshold)), calls, Stage::GoodNoisy, mv) == (
        td.board.exchanges@[x].gain >= threshold),
        gives(fresh(tt_move, Some(threshold)), calls, Stage::BadNoisy, mv) == (
        td.board.exchanges@[x].gain < threshold),
{
    let s = fresh(tt_move, Some(threshold));
    let p = picks(s, calls);
    lemma_every_capture_comes(tt_move, Some(threshold), td, calls, skip_quiets, mv);
    every_pick_comes_from_its_stage(tt_move, Some(threshold), td, calls);
    if gives(s, calls, Stage::GoodNoisy, mv) {
        let i = choose|i: int|
            0 <= i < p.len() && (#[trigger] p[i]).stage == Stage::GoodNoisy && p[i].mv == mv;
        assert(comes_from(p[i], tt_move, Some(threshold), td, calls));
        let score = lemma_judged(calls, td, Some(threshold), mv, true, x);
    }
    if gives(s, calls, Stage::BadNoisy, mv) {
        let i = choose|i: int|
            0 <= i < p.len() && (#[trigger] p[i]).stage == Stage::BadNoisy && p[i].mv == mv;
        assert(comes_from(p[i], tt_move, Some(threshold), td, calls));
        let score = lemma_judged(calls, td, Some(threshold), mv, false, x);
    }
}

/// Away from the root what a picker gives out is judged by the scores of the call that generated
/// the captures.
proof fn lemma_judged_when_generated(s: PickerState, td: ThreadData, calls: Seq<Call>, g: Call)
    requires
        consistent(s),
        s.stage.number() <= 1,
        away_from_the_root(calls),
        forall|i: int| 0 <= i < calls.len() ==> same_board((#[trigger] calls[i]).td, td),
        reached(s, calls, Stage::GoodNoisy) < calls.len() ==> g == calls[reached(
            s,
            calls,
            Stage::GoodNoisy,
        )],
    ensures
        forall|i: int|
            0 <= i < picks(s, calls).len() ==> comes_from(
                #[trigger] picks(s, calls)[i],
                s.tt_move,
                s.threshold,
                td,
                seq![g],
            ),
    decreases calls.len(),
{
    if calls.len() > 0 {
        let c = calls[0];
        let more = calls.drop_first();
        let one = seq![g];
        let p = picks(s, calls);
        assert(same_board(c.td, td));
        each_call_picks_one(s, c.td, c.root, c.skip_quiets, c.ply);
        assert forall|i: int| 0 <= i < more.len() implies same_board((#[trigger] more[i]).td, td)
            && !more[i].root by {
            assert(more[i] == calls[i + 1]);
        }
        let (t, r) = next_move(s, c.td, c.root, c.skip_quiets, c.ply);
        if s.stage == Stage::HashMove && c.td.board.legal(s.tt_move) {
            lemma_reached(t, more, Stage::GoodNoisy);
            lemma_judged_when_generated(t, td, more, g);
        } else {
            let u = with_captures(s, c.td);
            assert((t, r) == next_move(u, c.td, c.root, c.skip_quiets, c.ply));
            each_call_picks_one(u, c.td, c.root, c.skip_quiets, c.ply);
            assert(g == c);
            assert(one[0] == c);
            lemma_one_pick(s, c, td, one);
            lemma_stays_rooted(s, c, td, one);
            if r is Some {
                lemma_picks_come_from(t, td, more, one);
            }
        }
        if r is Some {
            assert forall|i: int| 0 <= i < p.len() implies comes_from(
                #[trigger] p[i],
                s.tt_move,
                s.threshold,
                td,
                one,
            ) by {
                if i > 0 {
                    assert(p[i] == picks(t, more)[i - 1]);
                }
            }
        }
    }
}

/// Without a threshold, too, the gain decides, held against the score: away from the root a
/// generated capture other than the hash move is given out as a good one exactly where the gain
/// of its exchange is enough for the score that it got when it was generated, and otherwise it is
/// put off.
pub proof fn without_a_threshold_the_score_counts(
    tt_move: Move,
    td: ThreadData,
    calls: Seq<Call>,
    skip_quiets: bool,
    mv: Move,
    x: int,
)
    requires
        uniform(calls, td, skip_quiets),
        away_from_the_root(calls),
        forall|i: int| 0 <= i < calls.len() ==> same_board((#[trigger] calls[i]).td, td),
        calls.len() >= pending(fresh(tt_move, None), td, skip_quiets).len(),
        td.board.noisy_moves@.contains(mv),
        !td.board.quiet_moves@.contains(mv),
        mv != tt_move,
        first_exchange(td.board, mv, x),
    ensures
        ({
            let s = fresh(tt_move, None);
            let g = calls[reached(s, calls, Stage::GoodNoisy)];
            let score = rated(g.td, mv) as int;
            let gain = td.board.exchanges@[x].gain as int;
            let enough = if score > 0 {
                45 * (gain - 111) >= -score
            } else {
                45 * (gain - 110) > -score
            };
            &&& gives(s, calls, Stage::GoodNoisy, mv) == enough
            &&& gives(s, calls, Stage::BadNoisy, mv) == !enough
        }),
{
    let s = fresh(tt_move, None);
    let g = calls[reached(s, calls, Stage::GoodNoisy)];
    let one = seq![g];
    let p = picks(s, calls);
    lemma_every_capture_comes(tt_move, None, td, calls, skip_quiets, mv);
    lemma_judged_when_generated(s, td, calls, g);
    assert forall|score: i32| scored_in(one, mv, score) implies score == rated(g.td, mv) by {
        let k = choose|k: int| 0 <= k < one.len() && score == rated((#[trigger] one[k]).td, mv);
        assert(one[k] == g);
    }
    if gives(s, calls, Stage::GoodNoisy, mv) {
        let i = choose|i: int|
            0 <= i < p.len() && (#[trigger] p[i]).stage == Stage::GoodNoisy && p[i].mv == mv;
        assert(comes_from(p[i], tt_move, None, td, one));
        let score = lemma_judged(one, td, None, mv, true, x);
    }
    if gives(s, calls, Stage::BadNoisy, mv) {
        let i = choose|i: int|
            0 <= i < p.len() && (#[trigger] p[i]).stage == Stage::BadNoisy && p[i].mv == mv;
        assert(comes_from(p[i], tt_move, None, td, one));
        let score = lemma_judged(one, td, None, mv, false, x);
    }
}

/// A capture without a listed exchange is never a good one.
pub proof fn an_unlisted_exchange_is_put_off(
    tt_move: Move,
    threshold: Option<i32>,
    td: ThreadData,
    calls: Seq<Call>,
    mv: Move,
)
    requires
        forall|i: int| 0 <= i < calls.len() ==> same_board((#[trigger] calls[i]).td, td),
        forall|i: int|
            0 <= i < td.board.exchanges@.len() ==> (#[trigger] td.board.exchanges@[i]).mv != mv,
    ensures
        !gives(fresh(tt_move, threshold), calls, Stage::GoodNoisy, mv),
{
    let s = fresh(tt_move, threshold);
    let p = picks(s, calls);
    every_pick_comes_from_its_stage(tt_move, threshold, td, calls);
    if gives(s, calls, Stage::GoodNoisy, mv) {
        let i = choose|i: int|
            0 <= i < p.len() && (#[trigger] p[i]).stage == Stage::GoodNoisy && p[i].mv == mv;
        assert(comes_from(p[i], tt_move, threshold, td, calls));
        let score = choose|score: i32| #[trigger]
            scored_in(calls, mv, score) && td.board.worth(
                mv,
                required_worth(threshold, score as int),
            ) == true;
        an_exchange_is_worth_its_gain(td.board, mv, required_worth(threshold, score as int));
    }
}

// What a picker holds

/// A new picker holds what it was made with, and nothing else; it starts with the hash move
/// exactly where there is one.
pub proof fn a_new_picker_holds_what_it_was_made_with(tt_move: Move, threshold: Option<i32>)
    ensures
        ({
            let s = fresh(tt_move, threshold);
            &&& s.tt_move == tt_move
            &&& s.threshold == threshold
            &&& s.list.len() == 0
            &&& s.bad_noisy.len() == 0
            &&& s.bad_noisy_idx == 0
            &&& tt_move.bits != 0 ==> s.stage == Stage::HashMove
            &&& tt_move.bits == 0 ==> s.stage == Stage::GenerateNoisy
        }),
{
}

/// After a pick at the root every move left in the list has the score that it has by what is known
/// then; at other nodes the moves left keep the scores that they had, or got when they were
/// generated in that call.
pub proof fn the_root_scores_what_is_left(
    s: PickerState,
    td: ThreadData,
    root: bool,
    skip_quiets: bool,
    ply: isize,
    i: int,
)
    requires
        consistent(s),
        next_move(s, td, root, skip_quiets, ply).1 is Some,
        0 <= i < next_move(s, td, root, skip_quiets, ply).0.list.len(),
    ensures
        ({
            let t = next_move(s, td, root, skip_quiets, ply).0;
            let e = t.list[i];
            &&& t.stage == Stage::GoodNoisy && (root || s.stage != t.stage) ==> e.score
                == noisy_score(td, e.mv) as i32
            &&& t.stage == Stage::Quiet && (root || s.stage != t.stage) ==> e.score == quiet_score(
                td,
                ply,
                e.mv,
            ) as i32
            &&& !root && s.stage == t.stage && t.stage != Stage::BadNoisy ==> s.list.contains(e)
        }),
{
    let (t, r) = next_move(s, td, root, skip_quiets, ply);
    if s.stage.number() <= 2 && !(s.stage == Stage::HashMove && td.board.legal(s.tt_move)) {
        let u = with_captures(s, td);
        assert((t, r) == next_noisy(u, td, root, skip_quiets, ply));
        lemma_pick_noisy(u, td);
        lemma_left_of_noisy(u, td);
        let (v, p) = pick_noisy(u, td);
        if p is None && !skip_quiets {
            let all = v.list + unscored(td.board.quiet_moves@);
            let w = PickerState { stage: Stage::Quiet, list: scored_quiet(all, td, ply), ..v };
            lemma_pick_quiet(w);
            if t.stage == Stage::Quiet {
                lemma_left_scored(w, td, root, ply, i);
            }
        } else if p is Some && !root {
            assert(u.list.contains(v.list[i]));
            let j = choose|j: int| 0 <= j < u.list.len() && u.list[j] == v.list[i];
            if s.stage != Stage::GoodNoisy {
                assert(u.list[j].score == noisy_score(td, u.list[j].mv) as i32);
            }
        } else if p is Some {
            assert(t.list[i].score == noisy_score(td, t.list[i].mv) as i32);
        }
    } else if s.stage == Stage::Quiet && !skip_quiets {
        lemma_pick_quiet(s);
        lemma_left_of_quiet(s);
        let (v, p) = pick_quiet(s);
        if p is Some && !root {
            assert(s.list.contains(v.list[i]));
        }
    }
}

proof fn lemma_left_scored(w: PickerState, td: ThreadData, root: bool, ply: isize, i: int)
    requires
        w.stage == Stage::Quiet,
        forall|j: int|
            0 <= j < w.list.len() ==> (#[trigger] w.list[j]).score == quiet_score(
                td,
                ply,
                w.list[j].mv,
            ) as i32,
        next_quiet(w, td, root, false, ply).0.stage == Stage::Quiet,
        0 <= i < next_quiet(w, td, root, false, ply).0.list.len(),
    ensures
        ({
            let e = next_quiet(w, td, root, false, ply).0.list[i];
            e.score == quiet_score(td, ply, e.mv) as i32
        }),
{
    lemma_pick_quiet(w);
    lemma_left_of_quiet(w);
    let v = pick_quiet(w).0;
    if !root && pick_quiet(w).1 is Some {
        assert(w.list.contains(v.list[i]));
    }
}

/// All moves of a position can be scored exactly where each capture can be, and, where no
/// threshold is given and it is not the hash move, negated; and there is one king on each side
/// and each quiet move can be scored.
pub proof fn a_position_is_scored_move_by_move(
    td: ThreadData,
    threshold: Option<i32>,
    tt_move: Move,
    ply: isize,
)
    ensures
        scorable(td, threshold, tt_move, ply) == {
            &&& forall|i: int|
                0 <= i < td.board.noisy_moves@.len() ==> noisy_fits(
                    td,
                    #[trigger] td.board.noisy_moves@[i],
                ) && (threshold is Some || td.board.noisy_moves@[i] == tt_move || noisy_score(
                    td,
                    td.board.noisy_moves@[i],
                ) > -0x8000_0000)
            &&& td.board.wf()
            &&& forall|i: int|
                0 <= i < td.board.quiet_moves@.len() ==> quiet_fits(
                    td,
                    ply,
                    #[trigger] td.board.quiet_moves@[i],
                )
        },
{
    let noisy = unscored(td.board.noisy_moves@);
    let quiet = unscored(td.board.quiet_moves@);
    assert forall|i: int| 0 <= i < noisy.len() implies (#[trigger] noisy[i]).mv
        == td.board.noisy_moves@[i] by {}
    assert forall|i: int| 0 <= i < noisy.len() implies (#[trigger] td.board.noisy_moves@[i])
        == noisy[i].mv by {}
    assert forall|i: int| 0 <= i < quiet.len() implies (#[trigger] quiet[i]).mv
        == td.board.quiet_moves@[i] by {}
    assert forall|i: int| 0 <= i < quiet.len() implies (#[trigger] td.board.quiet_moves@[i])
        == quiet[i].mv by {}
    assert(noisy.len() == td.board.noisy_moves@.len());
    assert(quiet.len() == td.board.quiet_moves@.len());
}

// When a picker can be asked

/// A picker whose list comes from a board on which all moves can be scored can be asked there,
/// and afterwards its list still comes from that board. A new picker's does.
pub proof fn one_test_is_enough(
    s: PickerState,
    td: ThreadData,
    root: bool,
    skip_quiets: bool,
    ply: isize,
)
    requires
        consistent(s),
        drawn_from(s, td),
        scorable(td, s.threshold, s.tt_move, ply),
    ensures
        ready(s, td, root, skip_quiets, ply),
        drawn_from(next_move(s, td, root, skip_quiets, ply).0, td),
        next_move(s, td, root, skip_quiets, ply).0.threshold == s.threshold,
        next_move(s, td, root, skip_quiets, ply).0.tt_move == s.tt_move,
{
    let noisy = unscored(td.board.noisy_moves@);
    let quiet = unscored(td.board.quiet_moves@);
    if s.stage == Stage::GoodNoisy {
        assert forall|i: int| 0 <= i < s.list.len() implies noisy_ok(
            td,
            s.threshold,
            s.tt_move,
            (#[trigger] s.list[i]).mv,
        ) by {
            let mv = s.list[i].mv;
            let j = choose|j: int|
                0 <= j < td.board.noisy_moves@.len() && td.board.noisy_moves@[j] == mv;
            assert(noisy[j].mv == mv);
        }
    }
    if s.stage == Stage::Quiet {
        assert forall|i: int| 0 <= i < s.list.len() implies quiet_fits(
            td,
            ply,
            (#[trigger] s.list[i]).mv,
        ) by {
            let mv = s.list[i].mv;
            let j = choose|j: int|
                0 <= j < td.board.quiet_moves@.len() && td.board.quiet_moves@[j] == mv;
            assert(quiet[j].mv == mv);
        }
    }
    scorable_moves_are_enough(s, td, root, skip_quiets, ply);
    each_call_picks_one(s, td, root, skip_quiets, ply);
    lemma_stays_drawn(s, td, root, skip_quiets, ply);
}

proof fn lemma_stays_drawn(
    s: PickerState,
    td: ThreadData,
    root: bool,
    skip_quiets: bool,
    ply: isize,
)
    requires
        consistent(s),
        drawn_from(s, td),
    ensures
        drawn_from(next_move(s, td, root, skip_quiets, ply).0, td),
{
    if s.stage == Stage::HashMove && td.board.legal(s.tt_move) {
    } else if s.stage.number() <= 2 {
        let u = with_captures(s, td);
        assert forall|i: int| 0 <= i < u.list.len() implies td.board.noisy_moves@.contains(
            (#[trigger] u.list[i]).mv,
        ) by {
            if s.stage != Stage::GoodNoisy {
                assert(u.list[i].mv == td.board.noisy_moves@[i]);
            }
        }
        lemma_left_of_noisy(u, td);
        lemma_pick_noisy(u, td);
        let (v, r) = pick_noisy(u, td);
        assert(next_move(s, td, root, skip_quiets, ply) == next_noisy(
            u,
            td,
            root,
            skip_quiets,
            ply,
        ));
        if r is Some {
            let w = scored_noisy(v.list, td);
            assert forall|i: int| 0 <= i < v.list.len() implies td.board.noisy_moves@.contains(
                (#[trigger] v.list[i]).mv,
            ) by {
                let j = choose|j: int| 0 <= j < u.list.len() && u.list[j] == v.list[i];
                assert(td.board.noisy_moves@.contains(u.list[j].mv));
            }
            assert forall|i: int| 0 <= i < w.len() implies td.board.noisy_moves@.contains(
                (#[trigger] w[i]).mv,
            ) by {
                assert(w[i].mv == v.list[i].mv);
            }
        } else if !skip_quiets {
            let all = v.list + unscored(td.board.quiet_moves@);
            let w = PickerState { stage: Stage::Quiet, list: scored_quiet(all, td, ply), ..v };
            assert forall|i: int| 0 <= i < w.list.len() implies td.board.quiet_moves@.contains(
                (#[trigger] w.list[i]).mv,
            ) by {
                assert(w.list[i].mv == td.board.quiet_moves@[i]);
            }
            lemma_quiets_stay_drawn(w, td, root, skip_quiets, ply);
        }
    } else if s.stage == Stage::Quiet {
        lemma_quiets_stay_drawn(s, td, root, skip_quiets, ply);
    }
}

proof fn lemma_quiets_stay_drawn(
    s: PickerState,
    td: ThreadData,
    root: bool,
    skip_quiets: bool,
    ply: isize,
)
    requires
        s.stage == Stage::Quiet,
        drawn_from(s, td),
    ensures
        drawn_from(next_quiet(s, td, root, skip_quiets, ply).0, td),
{
    lemma_left_of_quiet(s);
    lemma_pick_quiet(s);
    let v = pick_quiet(s).0;
    let w = scored_quiet(v.list, td, ply);
    assert forall|i: int| 0 <= i < v.list.len() implies td.board.quiet_moves@.contains(
        (#[trigger] v.list[i]).mv,
    ) by {
        let j = choose|j: int| 0 <= j < s.list.len() && s.list[j] == v.list[i];
        assert(td.board.quiet_moves@.contains(s.list[j].mv));
    }
    assert forall|i: int| 0 <= i < w.len() implies td.board.quiet_moves@.contains(
        (#[trigger] w[i]).mv,
    ) by {
        assert(w[i].mv == v.list[i].mv);
    }
}

} // verus!
