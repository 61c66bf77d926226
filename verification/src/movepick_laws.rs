//! What holds of a picker over all its calls.
use crate::board::unscored;
use crate::movepick::{
    all_noisy_ok, all_quiet_fit, best, consistent, fresh, lemma_best, lemma_push_contains,
    next_bad, next_move, next_noisy, next_quiet, noisy_ok, pick_noisy, pick_quiet, ready,
    required_worth, scored_noisy, scored_quiet, with_captures, PickerState, Stage,
};
use crate::scoring::quiet_fits;
use crate::thread::ThreadData;
use crate::types::{Move, MoveEntry};
use vstd::multiset::Multiset;
use vstd::prelude::*;

verus! {

/// The moves of a list.
pub open spec fn moves_of(list: Seq<MoveEntry>) -> Seq<Move> {
    list.map_values(|e: MoveEntry| e.mv)
}

/// How often each move other than the hash move occurs among some.
pub open spec fn others(moves: Seq<Move>, tt_move: Move) -> Multiset<Move> {
    moves.to_multiset().filter(|mv: Move| mv != tt_move)
}

/// The captures put off and not picked yet.
pub open spec fn put_off(s: PickerState) -> Multiset<Move> {
    s.bad_noisy.skip(s.bad_noisy_idx).to_multiset()
}

/// The quiet moves that a call may come to generate.
pub open spec fn quiets_to_come(s: PickerState, td: ThreadData, skip_quiets: bool) -> Multiset<Move> {
    if skip_quiets {
        Multiset::empty()
    } else {
        others(td.board.quiet_moves@, s.tt_move)
    }
}

/// How often each move is still to be picked: the hash move once, if it is legal and its stage
/// has not passed, and otherwise each move as often as it is generated.
pub open spec fn pending(s: PickerState, td: ThreadData, skip_quiets: bool) -> Multiset<Move> {
    match s.stage {
        Stage::HashMove => (if td.board.legal(s.tt_move) {
            Multiset::singleton(s.tt_move)
        } else {
            Multiset::empty()
        }).add(others(td.board.noisy_moves@, s.tt_move)).add(quiets_to_come(s, td, skip_quiets)),
        Stage::GenerateNoisy => others(td.board.noisy_moves@, s.tt_move).add(
            quiets_to_come(s, td, skip_quiets),
        ),
        Stage::GoodNoisy => others(moves_of(s.list), s.tt_move).add(put_off(s)).add(
            quiets_to_come(s, td, skip_quiets),
        ),
        Stage::GenerateQuiet => put_off(s).add(quiets_to_come(s, td, skip_quiets)),
        Stage::Quiet => put_off(s).add(
            if skip_quiets {
                Multiset::empty()
            } else {
                others(moves_of(s.list), s.tt_move)
            },
        ),
        Stage::BadNoisy => put_off(s),
    }
}

/// Taking an entry out of a list takes its move out of the moves of the list.
proof fn lemma_take_out(list: Seq<MoveEntry>, i: int, tt_move: Move)
    requires
        0 <= i < list.len(),
    ensures
        list[i].mv == tt_move ==> others(moves_of(list.remove(i)), tt_move) == others(
            moves_of(list),
            tt_move,
        ),
        list[i].mv != tt_move ==> others(moves_of(list), tt_move) == others(
            moves_of(list.remove(i)),
            tt_move,
        ).insert(list[i].mv),
{
    let moves = moves_of(list);
    let rest = moves_of(list.remove(i));
    assert(rest =~= moves.remove(i));
    moves.to_multiset_ensures();
    assert(moves.contains(moves[i]));
    assert(rest.to_multiset() == moves.to_multiset().remove(moves[i]));
    assert(moves.to_multiset().count(moves[i]) > 0);
    if list[i].mv == tt_move {
        assert(others(rest, tt_move) =~= others(moves, tt_move));
    } else {
        assert(others(moves, tt_move) =~= others(rest, tt_move).insert(list[i].mv));
    }
}

/// There is nothing to pick from an empty list.
proof fn lemma_nothing(list: Seq<MoveEntry>, tt_move: Move)
    requires
        list.len() == 0,
    ensures
        others(moves_of(list), tt_move) == Multiset::<Move>::empty(),
{
    moves_of(list).to_multiset_ensures();
    assert(others(moves_of(list), tt_move) =~= Multiset::<Move>::empty());
}

/// Scoring changes no move.
proof fn lemma_scoring_keeps_moves(list: Seq<MoveEntry>, td: ThreadData, ply: isize)
    ensures
        moves_of(scored_noisy(list, td)) == moves_of(list),
        moves_of(scored_quiet(list, td, ply)) == moves_of(list),
{
    assert(moves_of(scored_noisy(list, td)) =~= moves_of(list));
    assert(moves_of(scored_quiet(list, td, ply)) =~= moves_of(list));
}

/// What picking from the captures does to what is left of them.
pub proof fn lemma_pick_noisy(s: PickerState, td: ThreadData)
    requires
        0 <= s.bad_noisy_idx <= s.bad_noisy.len(),
        !s.bad_noisy.contains(s.tt_move),
    ensures
        ({
            let (t, r) = pick_noisy(s, td);
            let before = others(moves_of(s.list), s.tt_move).add(put_off(s));
            let after = others(moves_of(t.list), s.tt_move).add(put_off(t));
            &&& t == (PickerState { list: t.list, bad_noisy: t.bad_noisy, ..s })
            &&& s.bad_noisy.len() <= t.bad_noisy.len()
            &&& !t.bad_noisy.contains(t.tt_move)
            &&& r matches Some(mv) ==> before == after.insert(mv) && mv != s.tt_move
            &&& r is None ==> before == after && t.list.len() == 0
        }),
    decreases s.list.len(),
{
    if s.list.len() > 0 {
        lemma_best(s.list);
        let i = best(s.list);
        let e = s.list[i];
        let rest = s.list.remove(i);
        lemma_take_out(s.list, i, s.tt_move);
        let before = others(moves_of(s.list), s.tt_move).add(put_off(s));
        if e.mv == s.tt_move {
            lemma_pick_noisy(PickerState { list: rest, ..s }, td);
        } else if !td.board.worth(e.mv, required_worth(s.threshold, e.score as int)) {
            let u = PickerState { list: rest, bad_noisy: s.bad_noisy.push(e.mv), ..s };
            lemma_push_contains(s.bad_noisy, e.mv, s.tt_move);
            let tail = s.bad_noisy.skip(s.bad_noisy_idx);
            assert(u.bad_noisy.skip(s.bad_noisy_idx) =~= tail.push(e.mv));
            tail.to_multiset_ensures();
            assert(before =~= others(moves_of(rest), s.tt_move).add(put_off(u)));
            lemma_pick_noisy(u, td);
        } else {
            let t = PickerState { list: rest, ..s };
            assert(before =~= others(moves_of(rest), s.tt_move).add(put_off(t)).insert(e.mv));
        }
    }
}

/// What picking from the quiet moves does to what is left of them.
pub proof fn lemma_pick_quiet(s: PickerState)
    ensures
        ({
            let (t, r) = pick_quiet(s);
            let before = others(moves_of(s.list), s.tt_move);
            let after = others(moves_of(t.list), s.tt_move);
            &&& t == (PickerState { list: t.list, ..s })
            &&& r matches Some(mv) ==> before == after.insert(mv) && mv != s.tt_move
            &&& r is None ==> before == after && t.list.len() == 0
        }),
    decreases s.list.len(),
{
    if s.list.len() > 0 {
        lemma_best(s.list);
        let i = best(s.list);
        let e = s.list[i];
        let rest = s.list.remove(i);
        lemma_take_out(s.list, i, s.tt_move);
        if e.mv == s.tt_move {
            lemma_pick_quiet(PickerState { list: rest, ..s });
        }
    }
}

/// A step: what a call picks, and what it leaves to be picked.
pub open spec fn step_holds(
    before: Multiset<Move>,
    s: PickerState,
    td: ThreadData,
    skip_quiets: bool,
    outcome: (PickerState, Option<Move>),
) -> bool {
    let (t, r) = outcome;
    &&& consistent(t)
    &&& t.tt_move == s.tt_move
    &&& t.threshold == s.threshold
    &&& s.stage.number() <= t.stage.number()
    &&& r matches Some(mv) ==> before == pending(t, td, skip_quiets).insert(mv)
    &&& r is None ==> before == Multiset::<Move>::empty() && t.stage == Stage::BadNoisy
        && t.bad_noisy_idx == t.bad_noisy.len()
}

proof fn lemma_next_bad(s: PickerState, td: ThreadData, skip_quiets: bool)
    requires
        consistent(s),
        s.stage == Stage::BadNoisy,
    ensures
        step_holds(put_off(s), s, td, skip_quiets, next_bad(s)),
{
    let tail = s.bad_noisy.skip(s.bad_noisy_idx);
    tail.to_multiset_ensures();
    if s.bad_noisy_idx < s.bad_noisy.len() {
        let mv = s.bad_noisy[s.bad_noisy_idx];
        let t = next_bad(s).0;
        assert(t.bad_noisy.skip(t.bad_noisy_idx) =~= tail.remove(0));
        assert(tail.contains(tail[0]));
        assert(put_off(s) =~= put_off(t).insert(mv));
    } else {
        assert(put_off(s) =~= Multiset::<Move>::empty());
    }
}

proof fn lemma_next_quiet(
    s: PickerState,
    td: ThreadData,
    root: bool,
    skip_quiets: bool,
    ply: isize,
)
    requires
        consistent(s),
        s.stage == Stage::Quiet,
    ensures
        step_holds(
            pending(s, td, skip_quiets),
            s,
            td,
            skip_quiets,
            next_quiet(s, td, root, skip_quiets, ply),
        ),
{
    let before = pending(s, td, skip_quiets);
    if skip_quiets {
        let u = PickerState { stage: Stage::BadNoisy, ..s };
        assert(before =~= put_off(u));
        lemma_next_bad(u, td, skip_quiets);
    } else {
        lemma_pick_quiet(s);
        let (t, r) = pick_quiet(s);
        if r is Some {
            lemma_scoring_keeps_moves(t.list, td, ply);
            let (v, _) = next_quiet(s, td, root, skip_quiets, ply);
            assert(before =~= pending(v, td, skip_quiets).insert(r->0));
        } else {
            lemma_nothing(t.list, s.tt_move);
            let u = PickerState { stage: Stage::BadNoisy, ..t };
            assert(before =~= put_off(u));
            lemma_next_bad(u, td, skip_quiets);
        }
    }
}

proof fn lemma_next_noisy(
    s: PickerState,
    td: ThreadData,
    root: bool,
    skip_quiets: bool,
    ply: isize,
)
    requires
        consistent(s),
        s.stage == Stage::GoodNoisy,
    ensures
        step_holds(
            pending(s, td, skip_quiets),
            s,
            td,
            skip_quiets,
            next_noisy(s, td, root, skip_quiets, ply),
        ),
{
    let before = pending(s, td, skip_quiets);
    lemma_pick_noisy(s, td);
    let (t, r) = pick_noisy(s, td);
    if r is Some {
        lemma_scoring_keeps_moves(t.list, td, ply);
        let (v, _) = next_noisy(s, td, root, skip_quiets, ply);
        assert(before =~= pending(v, td, skip_quiets).insert(r->0));
    } else {
        lemma_nothing(t.list, s.tt_move);
        if skip_quiets {
            let u = PickerState { stage: Stage::BadNoisy, ..t };
            assert(before =~= put_off(u));
            lemma_next_bad(u, td, skip_quiets);
        } else {
            let all = t.list + unscored(td.board.quiet_moves@);
            let u = PickerState { stage: Stage::Quiet, list: scored_quiet(all, td, ply), ..t };
            lemma_scoring_keeps_moves(all, td, ply);
            assert(moves_of(all) =~= td.board.quiet_moves@);
            assert(before =~= pending(u, td, skip_quiets));
            lemma_next_quiet(u, td, root, skip_quiets, ply);
        }
    }
}

/// Each call picks one of the moves still to be picked and leaves the others to be picked; when
/// there are none, and only then, it picks none. No stage comes back, and what the picker was
/// made with stays.
pub proof fn each_call_picks_one(
    s: PickerState,
    td: ThreadData,
    root: bool,
    skip_quiets: bool,
    ply: isize,
)
    requires
        consistent(s),
    ensures
        step_holds(
            pending(s, td, skip_quiets),
            s,
            td,
            skip_quiets,
            next_move(s, td, root, skip_quiets, ply),
        ),
{
    let before = pending(s, td, skip_quiets);
    if s.stage.number() <= 1 {
        let all = s.list + unscored(td.board.noisy_moves@);
        let u = PickerState { stage: Stage::GoodNoisy, list: scored_noisy(all, td), ..s };
        lemma_scoring_keeps_moves(all, td, ply);
        assert(moves_of(all) =~= td.board.noisy_moves@);
        s.bad_noisy.skip(s.bad_noisy_idx).to_multiset_ensures();
        assert(put_off(s) =~= Multiset::<Move>::empty());
        assert(pending(u, td, skip_quiets) =~= others(td.board.noisy_moves@, s.tt_move).add(
            quiets_to_come(s, td, skip_quiets),
        ));
        if s.stage == Stage::HashMove && td.board.legal(s.tt_move) {
            let t = PickerState { stage: Stage::GenerateNoisy, ..s };
            assert(before =~= pending(t, td, skip_quiets).insert(s.tt_move));
        } else {
            assert(before =~= pending(u, td, skip_quiets));
            lemma_next_noisy(u, td, root, skip_quiets, ply);
        }
    } else if s.stage == Stage::GoodNoisy {
        lemma_next_noisy(s, td, root, skip_quiets, ply);
    } else if s.stage == Stage::Quiet {
        lemma_next_quiet(s, td, root, skip_quiets, ply);
    } else {
        lemma_next_bad(s, td, skip_quiets);
    }
}

/// What a picker is asked with: what the thread knows by then, the node, and whether quiet moves
/// are skipped.
pub struct Call {
    pub td: ThreadData,
    pub root: bool,
    pub skip_quiets: bool,
    pub ply: isize,
}

/// Whether two threads have the same moves before them, whatever they have learned.
pub open spec fn same_moves(a: ThreadData, b: ThreadData) -> bool {
    &&& a.board.noisy_moves@ == b.board.noisy_moves@
    &&& a.board.quiet_moves@ == b.board.quiet_moves@
    &&& a.board.legal_moves@ == b.board.legal_moves@
}

/// The moves that a picker gives out in a number of calls.
pub open spec fn run(s: PickerState, calls: Seq<Call>) -> Seq<Move>
    decreases calls.len(),
{
    if calls.len() == 0 {
        Seq::empty()
    } else {
        let c = calls[0];
        match next_move(s, c.td, c.root, c.skip_quiets, c.ply) {
            (t, Some(mv)) => seq![mv] + run(t, calls.drop_first()),
            (t, None) => Seq::empty(),
        }
    }
}

/// Whether calls are made with the same moves before the thread, and all with or all without
/// quiet moves.
pub open spec fn uniform(calls: Seq<Call>, td: ThreadData, skip_quiets: bool) -> bool {
    forall|i: int|
        0 <= i < calls.len() ==> same_moves((#[trigger] calls[i]).td, td) && calls[i].skip_quiets
            == skip_quiets
}

/// The moves of one call more, as a multiset.
proof fn lemma_one_more(mv: Move, rest: Seq<Move>)
    ensures
        (seq![mv] + rest).to_multiset() == rest.to_multiset().insert(mv),
{
    let all = seq![mv] + rest;
    all.to_multiset_ensures();
    assert(all.remove(0) =~= rest);
    assert(all.contains(all[0]));
    assert(all.to_multiset() =~= rest.to_multiset().insert(mv));
}

/// A picker that is asked often enough gives out every move that is to be picked exactly as often
/// as it is, whatever is learned between the calls: nothing is lost and nothing is repeated.
pub proof fn every_move_once(s: PickerState, td: ThreadData, calls: Seq<Call>, skip_quiets: bool)
    requires
        consistent(s),
        uniform(calls, td, skip_quiets),
        calls.len() >= pending(s, td, skip_quiets).len(),
    ensures
        run(s, calls).to_multiset() == pending(s, td, skip_quiets),
    decreases calls.len(),
{
    let before = pending(s, td, skip_quiets);
    if calls.len() == 0 {
        Seq::<Move>::empty().to_multiset_ensures();
        assert(before =~= Multiset::<Move>::empty());
        assert(Seq::<Move>::empty().to_multiset() =~= before);
    } else {
        let c = calls[0];
        let more = calls.drop_first();
        assert(same_moves(c.td, td));
        each_call_picks_one(s, c.td, c.root, skip_quiets, c.ply);
        let (t, r) = next_move(s, c.td, c.root, skip_quiets, c.ply);
        assert(pending(s, c.td, skip_quiets) == before);
        assert(pending(t, c.td, skip_quiets) == pending(t, td, skip_quiets));
        if r is Some {
            assert forall|i: int| 0 <= i < more.len() implies same_moves(
                (#[trigger] more[i]).td,
                td,
            ) && more[i].skip_quiets == skip_quiets by {
                assert(more[i] == calls[i + 1]);
            }
            every_move_once(t, td, more, skip_quiets);
            lemma_one_more(r->0, run(t, more));
        } else {
            Seq::<Move>::empty().to_multiset_ensures();
            assert(Seq::<Move>::empty().to_multiset() =~= before);
        }
    }
}

/// What a call picks and leaves to be picked is no more than there was to be picked, quiet moves
/// included, also where the call skips them.
proof fn lemma_nothing_comes_up(
    s: PickerState,
    td: ThreadData,
    root: bool,
    skip_quiets: bool,
    ply: isize,
)
    requires
        consistent(s),
    ensures
        ({
            let (t, r) = next_move(s, td, root, skip_quiets, ply);
            r matches Some(mv) ==> pending(t, td, false).insert(mv).subset_of(
                pending(s, td, false),
            )
        }),
{
    each_call_picks_one(s, td, root, skip_quiets, ply);
    the_stage_tells_where_a_move_comes_from(s, td, root, skip_quiets, ply);
    let (t, r) = next_move(s, td, root, skip_quiets, ply);
    if skip_quiets && r is Some {
        let mv = r->0;
        let quiets = others(td.board.quiet_moves@, s.tt_move);
        assert(pending(s, td, true) == pending(t, td, true).insert(mv));
        assert(pending(s, td, true).subset_of(pending(s, td, false)));
        if t.stage.number() <= 2 {
            assert(pending(s, td, false) =~= pending(s, td, true).add(quiets));
            assert(pending(t, td, false) =~= pending(t, td, true).add(quiets));
        } else {
            assert(pending(t, td, false) == pending(t, td, true));
        }
    }
}

/// However often a picker is asked, and whichever calls skip the quiet moves, it gives out no
/// move that is not to be picked, and none more often than it is.
pub proof fn no_move_is_repeated(s: PickerState, td: ThreadData, calls: Seq<Call>)
    requires
        consistent(s),
        forall|i: int| 0 <= i < calls.len() ==> same_moves((#[trigger] calls[i]).td, td),
    ensures
        run(s, calls).to_multiset().subset_of(pending(s, td, false)),
    decreases calls.len(),
{
    Seq::<Move>::empty().to_multiset_ensures();
    if calls.len() > 0 {
        let c = calls[0];
        let more = calls.drop_first();
        assert(same_moves(c.td, td));
        each_call_picks_one(s, c.td, c.root, c.skip_quiets, c.ply);
        lemma_nothing_comes_up(s, c.td, c.root, c.skip_quiets, c.ply);
        let (t, r) = next_move(s, c.td, c.root, c.skip_quiets, c.ply);
        assert(pending(s, c.td, false) == pending(s, td, false));
        assert(pending(t, c.td, false) == pending(t, td, false));
        if r is Some {
            assert forall|i: int| 0 <= i < more.len() implies same_moves(
                (#[trigger] more[i]).td,
                td,
            ) by {
                assert(more[i] == calls[i + 1]);
            }
            no_move_is_repeated(t, td, more);
            lemma_one_more(r->0, run(t, more));
        }
    }
}

/// Once a picker has no more moves, it has none whatever it is asked with.
pub proof fn the_end_is_final(
    s: PickerState,
    td: ThreadData,
    root: bool,
    skip_quiets: bool,
    ply: isize,
    td2: ThreadData,
    root2: bool,
    skip_quiets2: bool,
    ply2: isize,
)
    requires
        consistent(s),
        next_move(s, td, root, skip_quiets, ply).1 is None,
    ensures
        ({
            let t = next_move(s, td, root, skip_quiets, ply).0;
            next_move(t, td2, root2, skip_quiets2, ply2) == (t, None::<Move>)
        }),
{
    each_call_picks_one(s, td, root, skip_quiets, ply);
}

/// The hash move comes first if it is legal, and never after the stage that is its own.
pub proof fn hash_move_comes_first_and_once(
    s: PickerState,
    td: ThreadData,
    root: bool,
    skip_quiets: bool,
    ply: isize,
)
    requires
        consistent(s),
    ensures
        s.stage == Stage::HashMove && td.board.legal(s.tt_move) ==> next_move(
            s,
            td,
            root,
            skip_quiets,
            ply,
        ).1 == Some(s.tt_move),
        s.stage != Stage::HashMove || !td.board.legal(s.tt_move) ==> next_move(
            s,
            td,
            root,
            skip_quiets,
            ply,
        ).1 != Some(s.tt_move),
{
    each_call_picks_one(s, td, root, skip_quiets, ply);
    let before = pending(s, td, skip_quiets);
    if s.stage != Stage::HashMove || !td.board.legal(s.tt_move) {
        let tail = s.bad_noisy.skip(s.bad_noisy_idx);
        tail.to_multiset_ensures();
        assert(!tail.contains(s.tt_move)) by {
            if tail.contains(s.tt_move) {
                let i = choose|i: int| 0 <= i < tail.len() && tail[i] == s.tt_move;
                assert(s.bad_noisy[i + s.bad_noisy_idx] == s.tt_move);
            }
        }
        assert(put_off(s).count(s.tt_move) == 0);
        assert(before.count(s.tt_move) == 0);
    }
}

/// A new picker gives out exactly the moves of the position, where the hash move is one of them
/// if it is legal, and otherwise is not.
pub proof fn a_new_picker_gives_all_moves(
    tt_move: Move,
    threshold: Option<i32>,
    td: ThreadData,
    calls: Seq<Call>,
)
    requires
        (td.board.noisy_moves@ + td.board.quiet_moves@).to_multiset().count(tt_move) == (
        if tt_move != Move::absent() && td.board.legal(tt_move) {
            1nat
        } else {
            0
        }),
        uniform(calls, td, false),
        calls.len() >= td.board.noisy_moves@.len() + td.board.quiet_moves@.len(),
    ensures
        run(fresh(tt_move, threshold), calls).to_multiset() == (td.board.noisy_moves@
            + td.board.quiet_moves@).to_multiset(),
{
    let s = fresh(tt_move, threshold);
    let noisy = td.board.noisy_moves@;
    let quiet = td.board.quiet_moves@;
    let all = noisy + quiet;
    vstd::seq_lib::lemma_multiset_commutative(noisy, quiet);
    assert(all.to_multiset() == noisy.to_multiset().add(quiet.to_multiset()));
    all.to_multiset_ensures();
    let start = pending(s, td, false);
    assert(start =~= all.to_multiset());
    every_move_once(s, td, calls, false);
}

/// Whether a capture may be picked: it is not the hash move, and its exchange is worth enough.
pub open spec fn eligible_noisy(s: PickerState, td: ThreadData, e: MoveEntry) -> bool {
    e.mv != s.tt_move && td.board.worth(e.mv, required_worth(s.threshold, e.score as int))
}

/// The captures that may be picked.
pub open spec fn eligible_captures(s: PickerState, td: ThreadData) -> spec_fn(MoveEntry) -> bool {
    |e: MoveEntry| eligible_noisy(s, td, e)
}

/// The moves other than the hash move.
pub open spec fn not_hash_move(s: PickerState) -> spec_fn(MoveEntry) -> bool {
    |e: MoveEntry| e.mv != s.tt_move
}

/// Whether an entry is the last of those with the best score among the eligible ones.
pub open spec fn is_best_of(list: Seq<MoveEntry>, eligible: spec_fn(MoveEntry) -> bool, i: int) -> bool {
    &&& 0 <= i < list.len()
    &&& eligible(list[i])
    &&& forall|j: int|
        0 <= j < list.len() && eligible(#[trigger] list[j]) ==> list[j].score <= list[i].score
    &&& forall|j: int|
        i < j < list.len() && eligible(#[trigger] list[j]) ==> list[j].score < list[i].score
}

/// What is best without an entry that is not eligible is best with it.
proof fn lemma_best_of_rest(
    list: Seq<MoveEntry>,
    b: int,
    eligible: spec_fn(MoveEntry) -> bool,
    i: int,
) -> (k: int)
    requires
        0 <= b < list.len(),
        !eligible(list[b]),
        is_best_of(list.remove(b), eligible, i),
    ensures
        is_best_of(list, eligible, k),
        list[k] == list.remove(b)[i],
{
    let rest = list.remove(b);
    let k = if i < b {
        i
    } else {
        i + 1
    };
    assert forall|j: int| 0 <= j < list.len() && eligible(#[trigger] list[j]) implies list[j].score
        <= list[k].score && (j > k ==> list[j].score < list[k].score) by {
        let m = if j < b {
            j
        } else {
            j - 1
        };
        assert(j != b);
        assert(rest[m] == list[j]);
    }
    k
}

/// The good captures come by their scores: the one picked is the best of those that are eligible,
/// and none is picked only where none is.
pub proof fn good_captures_come_best_first(s: PickerState, td: ThreadData)
    ensures
        match pick_noisy(s, td).1 {
            Some(mv) => exists|i: int| #[trigger]
                is_best_of(s.list, eligible_captures(s, td), i) && s.list[i].mv == mv,
            None => forall|i: int|
                0 <= i < s.list.len() ==> !eligible_noisy(s, td, #[trigger] s.list[i]),
        },
    decreases s.list.len(),
{
    let eligible = eligible_captures(s, td);
    if s.list.len() > 0 {
        lemma_best(s.list);
        let b = best(s.list);
        let e = s.list[b];
        let rest = s.list.remove(b);
        if eligible(e) {
            assert(is_best_of(s.list, eligible, b));
        } else {
            let u = if e.mv == s.tt_move {
                PickerState { list: rest, ..s }
            } else {
                PickerState { list: rest, bad_noisy: s.bad_noisy.push(e.mv), ..s }
            };
            good_captures_come_best_first(u, td);
            assert(eligible_captures(u, td) =~= eligible);
            if pick_noisy(s, td).1 is Some {
                let mv = pick_noisy(s, td).1->0;
                let i = choose|i: int| #[trigger] is_best_of(rest, eligible, i) && rest[i].mv == mv;
                let k = lemma_best_of_rest(s.list, b, eligible, i);
                assert(is_best_of(s.list, eligible, k) && s.list[k].mv == mv);
            } else {
                assert forall|i: int| 0 <= i < s.list.len() implies !eligible_noisy(
                    s,
                    td,
                    #[trigger] s.list[i],
                ) by {
                    if i != b {
                        let m = if i < b {
                            i
                        } else {
                            i - 1
                        };
                        assert(rest[m] == s.list[i]);
                        assert(!eligible_noisy(u, td, rest[m]));
                    }
                }
            }
        }
    }
}

/// The quiet moves come by their scores: the one picked is the best of those other than the hash
/// move, and none is picked only where there is no other.
pub proof fn quiet_moves_come_best_first(s: PickerState)
    ensures
        match pick_quiet(s).1 {
            Some(mv) => exists|i: int| #[trigger]
                is_best_of(s.list, not_hash_move(s), i) && s.list[i].mv == mv,
            None => forall|i: int| 0 <= i < s.list.len() ==> (#[trigger] s.list[i]).mv == s.tt_move,
        },
    decreases s.list.len(),
{
    let eligible = not_hash_move(s);
    if s.list.len() > 0 {
        lemma_best(s.list);
        let b = best(s.list);
        let e = s.list[b];
        let rest = s.list.remove(b);
        if eligible(e) {
            assert(is_best_of(s.list, eligible, b));
        } else {
            let u = PickerState { list: rest, ..s };
            quiet_moves_come_best_first(u);
            assert(not_hash_move(u) =~= eligible);
            if pick_quiet(s).1 is Some {
                let mv = pick_quiet(s).1->0;
                let i = choose|i: int| #[trigger] is_best_of(rest, eligible, i) && rest[i].mv == mv;
                let k = lemma_best_of_rest(s.list, b, eligible, i);
                assert(is_best_of(s.list, eligible, k) && s.list[k].mv == mv);
            } else {
                assert forall|i: int| 0 <= i < s.list.len() implies (#[trigger] s.list[i]).mv
                    == s.tt_move by {
                    if i != b {
                        let m = if i < b {
                            i
                        } else {
                            i - 1
                        };
                        assert(rest[m] == s.list[i]);
                    }
                }
            }
        }
    }
}

/// The captures from which a call in one of the first stages picks.
pub open spec fn captures(s: PickerState, td: ThreadData) -> Seq<MoveEntry> {
    with_captures(s, td).list
}

/// The stage that a picker is in after a call tells where the move comes from: the hash move; a
/// capture whose exchange is worth enough; a quiet move; or one of the captures put off. While
/// quiet moves are skipped, none is picked.
pub proof fn the_stage_tells_where_a_move_comes_from(
    s: PickerState,
    td: ThreadData,
    root: bool,
    skip_quiets: bool,
    ply: isize,
)
    requires
        consistent(s),
    ensures
        ({
            let (t, r) = next_move(s, td, root, skip_quiets, ply);
            r matches Some(mv) ==> {
                &&& t.stage == Stage::GenerateNoisy ==> mv == s.tt_move && td.board.legal(mv)
                &&& t.stage == Stage::GoodNoisy ==> exists|i: int|
                    0 <= i < captures(s, td).len() && eligible_noisy(
                        s,
                        td,
                        #[trigger] captures(s, td)[i],
                    ) && captures(s, td)[i].mv == mv
                &&& t.stage == Stage::Quiet ==> !skip_quiets && if s.stage == Stage::Quiet {
                    moves_of(s.list).contains(mv)
                } else {
                    td.board.quiet_moves@.contains(mv)
                }
                &&& t.stage == Stage::BadNoisy ==> t.bad_noisy_idx > 0 && mv
                    == t.bad_noisy[t.bad_noisy_idx - 1]
                &&& t.stage != Stage::HashMove && t.stage != Stage::GenerateQuiet
            }
        }),
{
    each_call_picks_one(s, td, root, skip_quiets, ply);
    let (t, r) = next_move(s, td, root, skip_quiets, ply);
    if s.stage.number() <= 2 && !(s.stage == Stage::HashMove && td.board.legal(s.tt_move)) {
        let c = captures(s, td);
        let u = with_captures(s, td);
        assert((t, r) == next_noisy(u, td, root, skip_quiets, ply));
        good_captures_come_best_first(u, td);
        lemma_pick_noisy(u, td);
        let (v, p) = pick_noisy(u, td);
        if p is Some {
            let mv = p->0;
            let i = choose|i: int| #[trigger]
                is_best_of(u.list, eligible_captures(u, td), i) && u.list[i].mv == mv;
            assert(eligible_noisy(s, td, c[i]));
        } else if !skip_quiets {
            let all = v.list + unscored(td.board.quiet_moves@);
            assert(moves_of(all) =~= td.board.quiet_moves@);
            lemma_scoring_keeps_moves(all, td, ply);
            let w = PickerState { stage: Stage::Quiet, list: scored_quiet(all, td, ply), ..v };
            lemma_quiet_source(w, td, root, ply);
        }
    } else if s.stage == Stage::Quiet && !skip_quiets {
        lemma_quiet_source(s, td, root, ply);
    }
}

proof fn lemma_quiet_source(s: PickerState, td: ThreadData, root: bool, ply: isize)
    requires
        consistent(s),
        s.stage == Stage::Quiet,
    ensures
        ({
            let (t, r) = next_quiet(s, td, root, false, ply);
            r matches Some(mv) ==> {
                &&& t.stage == Stage::Quiet ==> moves_of(s.list).contains(mv)
                &&& t.stage == Stage::BadNoisy ==> t.bad_noisy_idx > 0 && mv
                    == t.bad_noisy[t.bad_noisy_idx - 1]
                &&& t.stage == Stage::Quiet || t.stage == Stage::BadNoisy
            }
        }),
{
    lemma_pick_quiet(s);
    quiet_moves_come_best_first(s);
    let (t, r) = pick_quiet(s);
    if r is Some {
        let mv = r->0;
        let i = choose|i: int| #[trigger]
            is_best_of(s.list, not_hash_move(s), i) && s.list[i].mv == mv;
        assert(moves_of(s.list)[i] == mv);
    }
}

/// Whether the scores of a list are those that its moves have now.
pub open spec fn up_to_date(s: PickerState, td: ThreadData, ply: isize) -> bool {
    &&& s.stage == Stage::GoodNoisy ==> s.list == scored_noisy(s.list, td)
    &&& s.stage == Stage::Quiet ==> s.list == scored_quiet(s.list, td, ply)
}

proof fn lemma_noisy_stays_up_to_date(s: PickerState, td: ThreadData)
    requires
        s.list == scored_noisy(s.list, td),
    ensures
        pick_noisy(s, td).0.list == scored_noisy(pick_noisy(s, td).0.list, td),
        pick_noisy(s, td).1 is None ==> pick_noisy(s, td).0.list.len() == 0,
    decreases s.list.len(),
{
    if s.list.len() > 0 {
        lemma_best(s.list);
        let b = best(s.list);
        let e = s.list[b];
        let rest = s.list.remove(b);
        assert forall|i: int| 0 <= i < rest.len() implies rest[i] == scored_noisy(rest, td)[i] by {
            let j = if i < b {
                i
            } else {
                i + 1
            };
            assert(s.list[j] == scored_noisy(s.list, td)[j]);
        }
        assert(rest =~= scored_noisy(rest, td));
        if e.mv == s.tt_move {
            lemma_noisy_stays_up_to_date(PickerState { list: rest, ..s }, td);
        } else if !td.board.worth(e.mv, required_worth(s.threshold, e.score as int)) {
            lemma_noisy_stays_up_to_date(
                PickerState { list: rest, bad_noisy: s.bad_noisy.push(e.mv), ..s },
                td,
            );
        }
    }
}

proof fn lemma_quiet_stays_up_to_date(s: PickerState, td: ThreadData, ply: isize)
    requires
        s.list == scored_quiet(s.list, td, ply),
    ensures
        pick_quiet(s).0.list == scored_quiet(pick_quiet(s).0.list, td, ply),
    decreases s.list.len(),
{
    if s.list.len() > 0 {
        lemma_best(s.list);
        let b = best(s.list);
        let e = s.list[b];
        let rest = s.list.remove(b);
        assert forall|i: int| 0 <= i < rest.len() implies rest[i] == scored_quiet(
            rest,
            td,
            ply,
        )[i] by {
            let j = if i < b {
                i
            } else {
                i + 1
            };
            assert(s.list[j] == scored_quiet(s.list, td, ply)[j]);
        }
        assert(rest =~= scored_quiet(rest, td, ply));
        if e.mv == s.tt_move {
            lemma_quiet_stays_up_to_date(PickerState { list: rest, ..s }, td, ply);
        }
    }
}

/// Scoring a list anew after a pick, as at the root, makes a difference only where something has
/// been learned since: with the same knowledge the root and the other nodes pick alike.
pub proof fn scoring_anew_changes_nothing(
    s: PickerState,
    td: ThreadData,
    skip_quiets: bool,
    ply: isize,
)
    requires
        consistent(s),
        up_to_date(s, td, ply),
    ensures
        next_move(s, td, true, skip_quiets, ply) == next_move(s, td, false, skip_quiets, ply),
        up_to_date(next_move(s, td, true, skip_quiets, ply).0, td, ply),
{
    if s.stage.number() <= 2 {
        let u = with_captures(s, td);
        if s.stage != Stage::GoodNoisy {
            assert(u.list =~= scored_noisy(u.list, td));
        }
        lemma_noisy_stays_up_to_date(u, td);
        let v = pick_noisy(u, td).0;
        lemma_pick_noisy(u, td);
        let all = v.list + unscored(td.board.quiet_moves@);
        let w = PickerState { stage: Stage::Quiet, list: scored_quiet(all, td, ply), ..v };
        assert(w.list =~= scored_quiet(w.list, td, ply));
        lemma_quiet_stays_up_to_date(w, td, ply);
        lemma_pick_quiet(w);
    } else if s.stage == Stage::Quiet {
        lemma_quiet_stays_up_to_date(s, td, ply);
        lemma_pick_quiet(s);
    }
}

/// The same call, a number of times.
pub open spec fn repeated(call: Call, n: nat) -> Seq<Call> {
    Seq::new(n, |i: int| call)
}

/// With the same knowledge throughout, the root and the other nodes give out the same moves in
/// the same order.
pub proof fn the_root_gives_the_same_moves(
    s: PickerState,
    td: ThreadData,
    skip_quiets: bool,
    ply: isize,
    n: nat,
)
    requires
        consistent(s),
        up_to_date(s, td, ply),
    ensures
        run(s, repeated((Call { td, root: true, skip_quiets, ply }), n)) == run(
            s,
            repeated((Call { td, root: false, skip_quiets, ply }), n),
        ),
    decreases n,
{
    let a = Call { td, root: true, skip_quiets, ply };
    let b = Call { td, root: false, skip_quiets, ply };
    if n > 0 {
        scoring_anew_changes_nothing(s, td, skip_quiets, ply);
        each_call_picks_one(s, td, true, skip_quiets, ply);
        let (t, r) = next_move(s, td, true, skip_quiets, ply);
        let m = (n - 1) as nat;
        assert(repeated(a, n).drop_first() =~= repeated(a, m));
        assert(repeated(b, n).drop_first() =~= repeated(b, m));
        if r is Some {
            the_root_gives_the_same_moves(t, td, skip_quiets, ply, m);
        }
    }
}

/// What picking leaves of a list was in it.
pub proof fn lemma_left_of_noisy(s: PickerState, td: ThreadData)
    ensures
        forall|i: int|
            0 <= i < pick_noisy(s, td).0.list.len() ==> s.list.contains(
                #[trigger] pick_noisy(s, td).0.list[i],
            ),
    decreases s.list.len(),
{
    if s.list.len() > 0 {
        lemma_best(s.list);
        let b = best(s.list);
        let e = s.list[b];
        let rest = s.list.remove(b);
        let u = if e.mv == s.tt_move || eligible_noisy(s, td, e) {
            PickerState { list: rest, ..s }
        } else {
            PickerState { list: rest, bad_noisy: s.bad_noisy.push(e.mv), ..s }
        };
        if !eligible_noisy(s, td, e) {
            lemma_left_of_noisy(u, td);
        }
        let left = pick_noisy(s, td).0.list;
        assert forall|i: int| 0 <= i < left.len() implies s.list.contains(#[trigger] left[i]) by {
            assert(rest.contains(left[i]));
            let j = choose|j: int| 0 <= j < rest.len() && rest[j] == left[i];
            let k = if j < b {
                j
            } else {
                j + 1
            };
            assert(s.list[k] == left[i]);
        }
    }
}

/// What picking leaves of a list was in it.
pub proof fn lemma_left_of_quiet(s: PickerState)
    ensures
        forall|i: int|
            0 <= i < pick_quiet(s).0.list.len() ==> s.list.contains(
                #[trigger] pick_quiet(s).0.list[i],
            ),
    decreases s.list.len(),
{
    if s.list.len() > 0 {
        lemma_best(s.list);
        let b = best(s.list);
        let e = s.list[b];
        let rest = s.list.remove(b);
        let u = PickerState { list: rest, ..s };
        if e.mv == s.tt_move {
            lemma_left_of_quiet(u);
        }
        let left = pick_quiet(s).0.list;
        assert forall|i: int| 0 <= i < left.len() implies s.list.contains(#[trigger] left[i]) by {
            assert(rest.contains(left[i]));
            let j = choose|j: int| 0 <= j < rest.len() && rest[j] == left[i];
            let k = if j < b {
                j
            } else {
                j + 1
            };
            assert(s.list[k] == left[i]);
        }
    }
}

/// A picker can be asked wherever all its moves, and those it may generate, can be scored.
pub proof fn scorable_moves_are_enough(
    s: PickerState,
    td: ThreadData,
    root: bool,
    skip_quiets: bool,
    ply: isize,
)
    requires
        consistent(s),
        s.stage == Stage::GoodNoisy ==> all_noisy_ok(td, s.threshold, s.tt_move, s.list),
        s.stage == Stage::Quiet ==> all_quiet_fit(td, ply, s.list),
        all_noisy_ok(td, s.threshold, s.tt_move, unscored(td.board.noisy_moves@)),
        all_quiet_fit(td, ply, unscored(td.board.quiet_moves@)),
    ensures
        ready(s, td, root, skip_quiets, ply),
{
    if s.stage == Stage::GoodNoisy {
        lemma_left_of_noisy(s, td);
        let left = pick_noisy(s, td).0.list;
        assert forall|i: int| 0 <= i < left.len() implies noisy_ok(
            td,
            s.threshold,
            s.tt_move,
            (#[trigger] left[i]).mv,
        ) by {
            let j = choose|j: int| 0 <= j < s.list.len() && s.list[j] == left[i];
            assert(noisy_ok(td, s.threshold, s.tt_move, s.list[j].mv));
        }
    } else if s.stage == Stage::Quiet {
        lemma_left_of_quiet(s);
        let left = pick_quiet(s).0.list;
        assert forall|i: int| 0 <= i < left.len() implies quiet_fits(
            td,
            ply,
            (#[trigger] left[i]).mv,
        ) by {
            let j = choose|j: int| 0 <= j < s.list.len() && s.list[j] == left[i];
            assert(quiet_fits(td, ply, s.list[j].mv));
        }
    }
}

} // verus!
