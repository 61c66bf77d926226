//! Staged move picking: the moves of a position one at a time, the most promising first.
use crate::board::unscored;
use crate::movepick_runs::one_test_is_enough;
use crate::scoring::{
    can_score_noisy_move, noisy_fits, noisy_score, quiet_fits, quiet_score, quotient,
    score_noisy_move, QuietContext,
};
use crate::search::NodeType;
use crate::thread::ThreadData;
use crate::types::{Move, MoveEntry};
use vstd::prelude::*;

verus! {

/// The stages of picking, in their order.
#[derive(Copy, Clone, Debug, Eq, PartialEq, PartialOrd, Structural)]
pub enum Stage {
    HashMove,
    GenerateNoisy,
    GoodNoisy,
    GenerateQuiet,
    Quiet,
    BadNoisy,
}

impl Stage {
    pub open spec fn number(self) -> int {
        match self {
            Stage::HashMove => 0,
            Stage::GenerateNoisy => 1,
            Stage::GoodNoisy => 2,
            Stage::GenerateQuiet => 3,
            Stage::Quiet => 4,
            Stage::BadNoisy => 5,
        }
    }
}

/// The state of a picker.
#[verifier::ext_equal]
pub struct PickerState {
    /// The moves generated in this stage and not picked yet.
    pub list: Seq<MoveEntry>,
    pub tt_move: Move,
    pub threshold: Option<i32>,
    pub stage: Stage,
    /// The captures put off for losing material.
    pub bad_noisy: Seq<Move>,
    /// How many of them have been picked.
    pub bad_noisy_idx: int,
}

/// Whether an entry has the best score of a list, and is the last one that has it.
pub open spec fn is_best(list: Seq<MoveEntry>, i: int) -> bool {
    &&& 0 <= i < list.len()
    &&& forall|j: int| 0 <= j < list.len() ==> (#[trigger] list[j]).score <= list[i].score
    &&& forall|j: int| i < j < list.len() ==> (#[trigger] list[j]).score < list[i].score
}

/// The last of the entries with the best score.
pub open spec fn best(list: Seq<MoveEntry>) -> int {
    choose|i: int| is_best(list, i)
}

/// The list with the score of each move as a capture.
pub open spec fn scored_noisy(list: Seq<MoveEntry>, td: ThreadData) -> Seq<MoveEntry> {
    list.map_values(|e: MoveEntry| (MoveEntry { mv: e.mv, score: noisy_score(td, e.mv) as i32 }))
}

/// The list with the score of each move as a quiet move.
pub open spec fn scored_quiet(list: Seq<MoveEntry>, td: ThreadData, ply: isize) -> Seq<MoveEntry> {
    list.map_values(
        |e: MoveEntry| (MoveEntry { mv: e.mv, score: quiet_score(td, ply, e.mv) as i32 }),
    )
}

/// What the exchange of a capture with a score must be worth for it not to be put off.
pub open spec fn required_worth(threshold: Option<i32>, score: int) -> int {
    match threshold {
        Some(t) => t as int,
        None => quotient(-score, 45) + 111,
    }
}

/// There is a best entry in every list that is not empty, and only one.
pub proof fn lemma_best(list: Seq<MoveEntry>)
    requires
        list.len() > 0,
    ensures
        is_best(list, best(list)),
        forall|i: int| #[trigger] is_best(list, i) ==> i == best(list),
    decreases list.len(),
{
    let n = list.len() - 1;
    if n == 0 {
        assert(is_best(list, 0));
    } else {
        let front = list.drop_last();
        lemma_best(front);
        let i = best(front);
        if list[n].score >= list[i].score {
            assert forall|j: int| 0 <= j < list.len() implies (#[trigger] list[j]).score
                <= list[n].score by {
                if j < n {
                    assert(front[j] == list[j]);
                }
            }
            assert(is_best(list, n));
        } else {
            assert forall|j: int| 0 <= j < list.len() implies (#[trigger] list[j]).score
                <= list[i].score by {
                if j < n {
                    assert(front[j] == list[j]);
                }
            }
            assert forall|j: int| i < j < list.len() implies (#[trigger] list[j]).score
                < list[i].score by {
                if j < n {
                    assert(front[j] == list[j]);
                }
            }
            assert(is_best(list, i));
        }
    }
}

/// Picks the best capture that is not the hash move and whose exchange is worth enough, and puts
/// off those before it whose exchange is not.
pub open spec fn pick_noisy(s: PickerState, td: ThreadData) -> (PickerState, Option<Move>)
    decreases s.list.len(),
{
    if s.list.len() == 0 {
        (s, None)
    } else {
        proof {
            lemma_best(s.list);
        }
        let e = s.list[best(s.list)];
        let rest = s.list.remove(best(s.list));
        if e.mv == s.tt_move {
            pick_noisy(PickerState { list: rest, ..s }, td)
        } else if !td.board.worth(e.mv, required_worth(s.threshold, e.score as int)) {
            pick_noisy(PickerState { list: rest, bad_noisy: s.bad_noisy.push(e.mv), ..s }, td)
        } else {
            (PickerState { list: rest, ..s }, Some(e.mv))
        }
    }
}

/// Picks the best quiet move that is not the hash move.
pub open spec fn pick_quiet(s: PickerState) -> (PickerState, Option<Move>)
    decreases s.list.len(),
{
    if s.list.len() == 0 {
        (s, None)
    } else {
        proof {
            lemma_best(s.list);
        }
        let e = s.list[best(s.list)];
        let rest = s.list.remove(best(s.list));
        if e.mv == s.tt_move {
            pick_quiet(PickerState { list: rest, ..s })
        } else {
            (PickerState { list: rest, ..s }, Some(e.mv))
        }
    }
}

/// The last stage: the captures put off, in the order in which they were.
pub open spec fn next_bad(s: PickerState) -> (PickerState, Option<Move>) {
    if s.bad_noisy_idx < s.bad_noisy.len() {
        (
            PickerState { bad_noisy_idx: s.bad_noisy_idx + 1, ..s },
            Some(s.bad_noisy[s.bad_noisy_idx]),
        )
    } else {
        (s, None)
    }
}

/// From the stage of quiet moves on.
pub open spec fn next_quiet(
    s: PickerState,
    td: ThreadData,
    root: bool,
    skip_quiets: bool,
    ply: isize,
) -> (PickerState, Option<Move>) {
    if skip_quiets {
        next_bad(PickerState { stage: Stage::BadNoisy, ..s })
    } else {
        match pick_quiet(s) {
            (t, Some(mv)) => (
                if root {
                    PickerState { list: scored_quiet(t.list, td, ply), ..t }
                } else {
                    t
                },
                Some(mv),
            ),
            (t, None) => next_bad(PickerState { stage: Stage::BadNoisy, ..t }),
        }
    }
}

/// From the generation of quiet moves on.
pub open spec fn generate_quiet(
    s: PickerState,
    td: ThreadData,
    root: bool,
    skip_quiets: bool,
    ply: isize,
) -> (PickerState, Option<Move>) {
    let list = scored_quiet(s.list + unscored(td.board.quiet_moves@), td, ply);
    next_quiet(PickerState { stage: Stage::Quiet, list, ..s }, td, root, skip_quiets, ply)
}

/// From the stage of good captures on.
pub open spec fn next_noisy(
    s: PickerState,
    td: ThreadData,
    root: bool,
    skip_quiets: bool,
    ply: isize,
) -> (PickerState, Option<Move>) {
    match pick_noisy(s, td) {
        (t, Some(mv)) => (
            if root {
                PickerState { list: scored_noisy(t.list, td), ..t }
            } else {
                t
            },
            Some(mv),
        ),
        (t, None) => if skip_quiets {
            next_bad(PickerState { stage: Stage::BadNoisy, ..t })
        } else {
            generate_quiet(t, td, root, skip_quiets, ply)
        },
    }
}

/// From the generation of captures on.
pub open spec fn generate_noisy(
    s: PickerState,
    td: ThreadData,
    root: bool,
    skip_quiets: bool,
    ply: isize,
) -> (PickerState, Option<Move>) {
    let list = scored_noisy(s.list + unscored(td.board.noisy_moves@), td);
    next_noisy(PickerState { stage: Stage::GoodNoisy, list, ..s }, td, root, skip_quiets, ply)
}

/// The next move, and the state after it is picked.
pub open spec fn next_move(
    s: PickerState,
    td: ThreadData,
    root: bool,
    skip_quiets: bool,
    ply: isize,
) -> (PickerState, Option<Move>) {
    match s.stage {
        Stage::HashMove => if td.board.legal(s.tt_move) {
            (PickerState { stage: Stage::GenerateNoisy, ..s }, Some(s.tt_move))
        } else {
            generate_noisy(s, td, root, skip_quiets, ply)
        },
        Stage::GenerateNoisy => generate_noisy(s, td, root, skip_quiets, ply),
        Stage::GoodNoisy => next_noisy(s, td, root, skip_quiets, ply),
        Stage::GenerateQuiet => generate_quiet(s, td, root, skip_quiets, ply),
        Stage::Quiet => next_quiet(s, td, root, skip_quiets, ply),
        Stage::BadNoisy => next_bad(s),
    }
}

/// Whether a move can be scored and judged as a capture: where no threshold is given, its score
/// is negated, except that of the hash move, which is passed over.
pub open spec fn noisy_ok(td: ThreadData, threshold: Option<i32>, tt_move: Move, mv: Move) -> bool {
    noisy_fits(td, mv) && (threshold is None && mv != tt_move ==> noisy_score(td, mv) > i32::MIN)
}

/// Whether every capture of a list can be scored and judged.
pub open spec fn all_noisy_ok(
    td: ThreadData,
    threshold: Option<i32>,
    tt_move: Move,
    list: Seq<MoveEntry>,
) -> bool {
    forall|i: int|
        0 <= i < list.len() ==> noisy_ok(td, threshold, tt_move, (#[trigger] list[i]).mv)
}

/// Whether every quiet move of a list can be scored.
pub open spec fn all_quiet_fit(td: ThreadData, ply: isize, list: Seq<MoveEntry>) -> bool {
    td.board.wf() && forall|i: int|
        0 <= i < list.len() ==> quiet_fits(td, ply, (#[trigger] list[i]).mv)
}

/// Whether all moves of a position can be scored, and its captures judged.
pub open spec fn scorable(
    td: ThreadData,
    threshold: Option<i32>,
    tt_move: Move,
    ply: isize,
) -> bool {
    &&& all_noisy_ok(td, threshold, tt_move, unscored(td.board.noisy_moves@))
    &&& all_quiet_fit(td, ply, unscored(td.board.quiet_moves@))
}

/// Whether the list of a picker comes from the moves of a position.
pub open spec fn drawn_from(s: PickerState, td: ThreadData) -> bool {
    &&& s.stage == Stage::GoodNoisy ==> forall|i: int|
        0 <= i < s.list.len() ==> td.board.noisy_moves@.contains((#[trigger] s.list[i]).mv)
    &&& s.stage == Stage::Quiet ==> forall|i: int|
        0 <= i < s.list.len() ==> td.board.quiet_moves@.contains((#[trigger] s.list[i]).mv)
}

/// The state in which a call in one of the first stages picks from the captures.
pub open spec fn with_captures(s: PickerState, td: ThreadData) -> PickerState {
    if s.stage == Stage::GoodNoisy {
        s
    } else {
        PickerState {
            stage: Stage::GoodNoisy,
            list: scored_noisy(s.list + unscored(td.board.noisy_moves@), td),
            ..s
        }
    }
}

/// Whether the moves that a call scores can be scored. A list is scored when it is generated, and
/// at the root what is left of it after each pick.
pub open spec fn ready(
    s: PickerState,
    td: ThreadData,
    root: bool,
    skip_quiets: bool,
    ply: isize,
) -> bool {
    if s.stage == Stage::HashMove && td.board.legal(s.tt_move) {
        true
    } else if s.stage.number() <= 2 {
        let (t, picked) = pick_noisy(with_captures(s, td), td);
        &&& s.stage.number() <= 1 ==> all_noisy_ok(
            td,
            s.threshold,
            s.tt_move,
            unscored(td.board.noisy_moves@),
        )
        &&& s.stage == Stage::GoodNoisy && root && picked is Some ==> all_noisy_ok(
            td,
            s.threshold,
            s.tt_move,
            t.list,
        )
        &&& picked is None && !skip_quiets ==> all_quiet_fit(
            td,
            ply,
            unscored(td.board.quiet_moves@),
        )
    } else if s.stage == Stage::Quiet {
        let (t, picked) = pick_quiet(s);
        root && !skip_quiets && picked is Some ==> all_quiet_fit(td, ply, t.list)
    } else {
        true
    }
}

/// What holds of a picker between calls: the captures put off are not picked before the last
/// stage and the hash move is not among them, nothing is generated before its stage, and the
/// stage of generating quiet moves is left in the call that enters it.
pub open spec fn consistent(s: PickerState) -> bool {
    &&& 0 <= s.bad_noisy_idx <= s.bad_noisy.len()
    &&& s.bad_noisy_idx > 0 ==> s.stage == Stage::BadNoisy
    &&& s.stage.number() <= 1 ==> s.list.len() == 0 && s.bad_noisy.len() == 0
    &&& s.stage != Stage::GenerateQuiet
    &&& !s.bad_noisy.contains(s.tt_move)
}

/// What holds of a picker between calls; besides, a score that is going to be negated can be.
pub open spec fn valid(s: PickerState) -> bool {
    &&& consistent(s)
    &&& s.stage == Stage::GoodNoisy && s.threshold is None ==> forall|i: int|
        0 <= i < s.list.len() && (#[trigger] s.list[i]).mv != s.tt_move ==> s.list[i].score
            > i32::MIN
}

pub struct MovePicker {
    list: Vec<MoveEntry>,
    tt_move: Move,
    threshold: Option<i32>,
    stage: Stage,
    bad_noisy: Vec<Move>,
    bad_noisy_idx: usize,
}

impl View for MovePicker {
    type V = PickerState;

    closed spec fn view(&self) -> PickerState {
        PickerState {
            list: self.list@,
            tt_move: self.tt_move,
            threshold: self.threshold,
            stage: self.stage,
            bad_noisy: self.bad_noisy@,
            bad_noisy_idx: self.bad_noisy_idx as int,
        }
    }
}

/// A picker that has not picked anything yet.
pub open spec fn fresh(tt_move: Move, threshold: Option<i32>) -> PickerState {
    PickerState {
        list: Seq::empty(),
        tt_move,
        threshold,
        stage: if tt_move != Move::absent() {
            Stage::HashMove
        } else {
            Stage::GenerateNoisy
        },
        bad_noisy: Seq::empty(),
        bad_noisy_idx: 0,
    }
}

impl MovePicker {
    /// All moves, with the hash move, if there is one, first.
    pub fn new(tt_move: Move) -> (r: Self)
        ensures
            r@ == fresh(tt_move, None),
            valid(r@),
    {
        MovePicker {
            list: Vec::new(),
            tt_move,
            threshold: None,
            stage: if tt_move.is_present() { Stage::HashMove } else { Stage::GenerateNoisy },
            bad_noisy: Vec::new(),
            bad_noisy_idx: 0,
        }
    }

    /// Moves by a fixed threshold for what the exchange of a capture must be worth.
    pub fn new_probcut(threshold: i32) -> (r: Self)
        ensures
            r@ == fresh(Move::absent(), Some(threshold)),
            valid(r@),
    {
        MovePicker {
            list: Vec::new(),
            tt_move: Move::null(),
            threshold: Some(threshold),
            stage: Stage::GenerateNoisy,
            bad_noisy: Vec::new(),
            bad_noisy_idx: 0,
        }
    }

    /// Moves for the search of captures alone.
    pub fn new_qsearch() -> (r: Self)
        ensures
            r@ == fresh(Move::absent(), None),
            valid(r@),
    {
        MovePicker {
            list: Vec::new(),
            tt_move: Move::null(),
            threshold: None,
            stage: Stage::GenerateNoisy,
            bad_noisy: Vec::new(),
            bad_noisy_idx: 0,
        }
    }

    /// The stage that the last move came from, or that the next one may come from.
    pub fn stage(&self) -> (r: Stage)
        ensures
            r == self@.stage,
    {
        self.stage
    }

    /// Whether all moves of a position can be scored. Where they can, a picker whose moves are
    /// those of the position can be asked for the next one, at any node and with or without quiet
    /// moves.
    pub fn can_pick(&self, td: &ThreadData, ply: isize) -> (r: bool)
        ensures
            r == scorable(*td, self@.threshold, self@.tt_move, ply),
            r && valid(self@) && drawn_from(self@, *td) ==> forall|root: bool, skip_quiets: bool|
                #[trigger] ready(self@, *td, root, skip_quiets, ply),
    {
        let ghost noisy = unscored(td.board.noisy_moves@);
        let ghost quiet = unscored(td.board.quiet_moves@);
        if !td.board.is_wf() {
            return false;
        }
        let mut i: usize = 0;
        while i < td.board.noisy_moves.len()
            invariant
                i <= td.board.noisy_moves@.len(),
                noisy == unscored(td.board.noisy_moves@),
                forall|j: int|
                    0 <= j < i ==> noisy_ok(
                        *td,
                        self.threshold,
                        self.tt_move,
                        (#[trigger] noisy[j]).mv,
                    ),
            decreases td.board.noisy_moves@.len() - i,
        {
            let mv = td.board.noisy_moves[i];
            let (fits, negates) = can_score_noisy_move(td, mv);
            if !fits || (self.threshold.is_none() && mv != self.tt_move && !negates) {
                assert(!noisy_ok(*td, self.threshold, self.tt_move, noisy[i as int].mv));
                return false;
            }
            i = i + 1;
        }
        let context = QuietContext::new(td);
        let mut k: usize = 0;
        while k < td.board.quiet_moves.len()
            invariant
                k <= td.board.quiet_moves@.len(),
                quiet == unscored(td.board.quiet_moves@),
                context.describes(*td),
                forall|j: int| 0 <= j < k ==> quiet_fits(*td, ply, (#[trigger] quiet[j]).mv),
            decreases td.board.quiet_moves@.len() - k,
        {
            if !context.can_score_quiet_move(td, ply, td.board.quiet_moves[k]) {
                assert(!quiet_fits(*td, ply, quiet[k as int].mv));
                return false;
            }
            k = k + 1;
        }
        proof {
            if valid(self@) && drawn_from(self@, *td) {
                assert forall|root: bool, skip_quiets: bool| #[trigger]
                    ready(self@, *td, root, skip_quiets, ply) by {
                    one_test_is_enough(self@, *td, root, skip_quiets, ply);
                }
            }
        }
        true
    }

    /// Takes the last of the entries with the best score out of the list.
    fn get_best_entry(&mut self) -> (r: MoveEntry)
        requires
            old(self).list@.len() > 0,
        ensures
            r == old(self).list@[best(old(self).list@)],
            final(self)@ == (PickerState {
                list: old(self).list@.remove(best(old(self).list@)),
                ..old(self)@
            }),
    {
        let mut best_index: usize = 0;
        let mut best_score: i32 = i32::MIN;
        let len: usize = self.list.len();
        let mut index: usize = 0;
        while index < len
            invariant
                len == self.list@.len(),
                index <= len,
                index == 0 ==> best_index == 0 && best_score == i32::MIN,
                index > 0 ==> best_index < index && best_score == self.list@[best_index as int].score
                    && is_best(self.list@.take(index as int), best_index as int),
            decreases len - index,
        {
            let ghost done = self.list@.take(index as int);
            let ghost more = self.list@.take(index + 1);
            let entry = self.list[index];
            proof {
                assert(forall|j: int| 0 <= j < index ==> #[trigger] more[j] == done[j]);
                assert(more[index as int] == entry);
            }
            if entry.score >= best_score {
                best_index = index;
                best_score = entry.score;
            }
            proof {
                assert forall|j: int| 0 <= j < more.len() implies (#[trigger] more[j]).score
                    <= best_score by {
                    if j < index {
                        assert(more[j] == done[j]);
                    }
                }
                assert forall|j: int| best_index < j < more.len() implies (#[trigger] more[j]).score
                    < best_score by {
                    if j < index {
                        assert(more[j] == done[j]);
                    }
                }
                assert(is_best(more, best_index as int));
            }
            index = index + 1;
        }
        proof {
            assert(self.list@.take(len as int) =~= self.list@);
            lemma_best(self.list@);
        }
        self.list.remove(best_index)
    }

    /// Scores the moves of the list as captures.
    fn score_noisy(&mut self, td: &ThreadData)
        requires
            forall|i: int|
                0 <= i < old(self).list@.len() ==> noisy_fits(
                    *td,
                    (#[trigger] old(self).list@[i]).mv,
                ),
        ensures
            final(self)@ == (PickerState {
                list: scored_noisy(old(self).list@, *td),
                ..old(self)@
            }),
    {
        let ghost before = self@;
        let mut i: usize = 0;
        while i < self.list.len()
            invariant
                i <= self.list@.len(),
                self.list@.len() == before.list.len(),
                self@ == (PickerState { list: self.list@, ..before }),
                forall|j: int|
                    0 <= j < before.list.len() ==> noisy_fits(*td, (#[trigger] before.list[j]).mv),
                forall|j: int|
                    0 <= j < i ==> #[trigger] self.list@[j] == scored_noisy(before.list, *td)[j],
                forall|j: int| i <= j < self.list@.len() ==> #[trigger] self.list@[j] == before.list[j],
            decreases self.list@.len() - i,
        {
            let mv = self.list[i].mv;
            let score: i32 = score_noisy_move(td, mv);
            self.list[i] = MoveEntry { mv, score };
            i = i + 1;
        }
        assert(self.list@ =~= scored_noisy(before.list, *td));
    }

    /// Scores the moves of the list as quiet moves.
    fn score_quiet(&mut self, td: &ThreadData, ply: isize)
        requires
            td.board.wf(),
            forall|i: int|
                0 <= i < old(self).list@.len() ==> quiet_fits(
                    *td,
                    ply,
                    (#[trigger] old(self).list@[i]).mv,
                ),
        ensures
            final(self)@ == (PickerState {
                list: scored_quiet(old(self).list@, *td, ply),
                ..old(self)@
            }),
    {
        let ghost before = self@;
        let context = QuietContext::new(td);
        let mut i: usize = 0;
        while i < self.list.len()
            invariant
                i <= self.list@.len(),
                self.list@.len() == before.list.len(),
                self@ == (PickerState { list: self.list@, ..before }),
                context.describes(*td),
                forall|j: int|
                    0 <= j < before.list.len() ==> quiet_fits(
                        *td,
                        ply,
                        (#[trigger] before.list[j]).mv,
                    ),
                forall|j: int|
                    0 <= j < i ==> #[trigger] self.list@[j] == scored_quiet(before.list, *td, ply)[j],
                forall|j: int| i <= j < self.list@.len() ==> #[trigger] self.list@[j] == before.list[j],
            decreases self.list@.len() - i,
        {
            let mv = self.list[i].mv;
            let score: i32 = context.score_quiet_move(td, ply, mv);
            self.list[i] = MoveEntry { mv, score };
            i = i + 1;
        }
        assert(self.list@ =~= scored_quiet(before.list, *td, ply));
    }

    /// Whether every entry of a list is one of another.
    spec fn within(list: Seq<MoveEntry>, all: Seq<MoveEntry>) -> bool {
        forall|i: int| 0 <= i < list.len() ==> all.contains(#[trigger] list[i])
    }

    /// Picks the best capture whose exchange is worth enough.
    fn pick_good_noisy(&mut self, td: &ThreadData) -> (r: Option<Move>)
        requires
            old(self).threshold is None ==> forall|i: int|
                0 <= i < old(self).list@.len() && (#[trigger] old(self).list@[i]).mv != old(
                    self,
                ).tt_move ==> old(self).list@[i].score > i32::MIN,
        ensures
            (final(self)@, r) == pick_noisy(old(self)@, *td),
            Self::within(final(self).list@, old(self).list@),
            r is None ==> final(self).list@.len() == 0,
            old(self).bad_noisy@.contains(old(self).tt_move)
                || !final(self).bad_noisy@.contains(old(self).tt_move),
            final(self)@ == (PickerState {
                list: final(self)@.list,
                bad_noisy: final(self)@.bad_noisy,
                ..old(self)@
            }),
    {
        let ghost start = self@;
        while self.list.len() > 0
            invariant
                start == old(self)@,
                pick_noisy(self@, *td) == pick_noisy(start, *td),
                self@ == (PickerState { list: self@.list, bad_noisy: self@.bad_noisy, ..start }),
                Self::within(self.list@, start.list),
                start.bad_noisy.contains(start.tt_move) || !self.bad_noisy@.contains(start.tt_move),
                start.threshold is None ==> forall|i: int|
                    0 <= i < start.list.len() && (#[trigger] start.list[i]).mv != start.tt_move
                        ==> start.list[i].score > i32::MIN,
            decreases self.list@.len(),
        {
            let ghost before = self@;
            let entry = self.get_best_entry();
            proof {
                lemma_best(before.list);
                lemma_remove(before.list, best(before.list));
                assert(start.list.contains(entry));
                assert forall|i: int| 0 <= i < self.list@.len() implies start.list.contains(
                    #[trigger] self.list@[i],
                ) by {
                    let j = if i < best(before.list) {
                        i
                    } else {
                        i + 1
                    };
                    assert(self.list@[i] == before.list[j]);
                }
            }
            if entry.mv == self.tt_move {
                continue ;
            }
            let threshold: i32 = match self.threshold {
                Some(t) => t,
                None => -entry.score / 45 + 111,
            };
            if !td.board.see(entry.mv, threshold) {
                self.bad_noisy.push(entry.mv);
                proof {
                    lemma_push_contains(before.bad_noisy, entry.mv, self.tt_move);
                }
                continue ;
            }
            return Some(entry.mv);
        }
        None
    }

    /// Picks the best quiet move.
    fn pick_any_quiet(&mut self) -> (r: Option<Move>)
        ensures
            (final(self)@, r) == pick_quiet(old(self)@),
            Self::within(final(self).list@, old(self).list@),
            r is None ==> final(self).list@.len() == 0,
            final(self)@ == (PickerState { list: final(self)@.list, ..old(self)@ }),
    {
        let ghost start = self@;
        while self.list.len() > 0
            invariant
                start == old(self)@,
                pick_quiet(self@) == pick_quiet(start),
                self@ == (PickerState { list: self@.list, ..start }),
                Self::within(self.list@, start.list),
            decreases self.list@.len(),
        {
            let ghost before = self@;
            let entry = self.get_best_entry();
            proof {
                lemma_best(before.list);
                lemma_remove(before.list, best(before.list));
                assert forall|i: int| 0 <= i < self.list@.len() implies start.list.contains(
                    #[trigger] self.list@[i],
                ) by {
                    let j = if i < best(before.list) {
                        i
                    } else {
                        i + 1
                    };
                    assert(self.list@[i] == before.list[j]);
                }
            }
            if entry.mv == self.tt_move {
                continue ;
            }
            return Some(entry.mv);
        }
        None
    }

    /// The next move, or `None` when there are no more. With `skip_quiets`, a call that finds no
    /// good capture left passes over all quiet moves that are left; a call that still returns the
    /// hash move or a good capture decides nothing about them.
    pub fn next<NODE: NodeType>(&mut self, td: &ThreadData, skip_quiets: bool, ply: isize) -> (r:
        Option<Move>)
        requires
            valid(old(self)@),
            ready(old(self)@, *td, NODE::ROOT, skip_quiets, ply),
        ensures
            (final(self)@, r) == next_move(old(self)@, *td, NODE::ROOT, skip_quiets, ply),
            valid(final(self)@),
    {
        let ghost start = self@;
        let ghost whole = next_move(start, *td, NODE::ROOT, skip_quiets, ply);
        let ghost noisy = unscored(td.board.noisy_moves@);
        let ghost quiet = unscored(td.board.quiet_moves@);
        if self.stage == Stage::HashMove {
            self.stage = Stage::GenerateNoisy;
            if td.board.is_legal(self.tt_move) {
                return Some(self.tt_move);
            }
        }
        if self.stage == Stage::GenerateNoisy {
            self.stage = Stage::GoodNoisy;
            td.board.append_noisy_moves(&mut self.list);
            assert(self.list@ =~= noisy);
            assert(start.list + noisy =~= noisy);
            self.score_noisy(td);
            assert(self@ == with_captures(start, *td));
            assert(forall|i: int|
                0 <= i < self.list@.len() ==> (#[trigger] self.list@[i]).mv == noisy[i].mv);
            assert(whole == next_noisy(self@, *td, NODE::ROOT, skip_quiets, ply));
        }
        if self.stage == Stage::GoodNoisy {
            let ghost before = self@;
            let picked = self.pick_good_noisy(td);
            assert((self@, picked) == pick_noisy(with_captures(start, *td), *td));
            if picked.is_some() {
                if NODE::ROOT {
                    assert forall|i: int| 0 <= i < self.list@.len() implies noisy_ok(
                        *td,
                        self.threshold,
                        self.tt_move,
                        (#[trigger] self.list@[i]).mv,
                    ) by {
                        if start.stage.number() <= 1 {
                            let e = self.list@[i];
                            let j = choose|j: int| 0 <= j < before.list.len() && before.list[j] == e;
                            assert(noisy[j].mv == e.mv);
                        }
                    }
                    self.score_noisy(td);
                }
                return picked;
            }
            if skip_quiets {
                self.stage = Stage::BadNoisy;
            } else {
                self.stage = Stage::GenerateQuiet;
            }
        }
        if self.stage == Stage::GenerateQuiet {
            self.stage = Stage::Quiet;
            td.board.append_quiet_moves(&mut self.list);
            assert(self.list@ =~= quiet);
            self.score_quiet(td, ply);
            assert(forall|i: int|
                0 <= i < self.list@.len() ==> (#[trigger] self.list@[i]).mv == quiet[i].mv);
            assert(whole == next_quiet(self@, *td, NODE::ROOT, skip_quiets, ply));
        }
        if self.stage == Stage::Quiet {
            if !skip_quiets {
                let ghost before = self@;
                let picked = self.pick_any_quiet();
                if picked.is_some() {
                    if NODE::ROOT {
                        assert forall|i: int| 0 <= i < self.list@.len() implies quiet_fits(
                            *td,
                            ply,
                            (#[trigger] self.list@[i]).mv,
                        ) by {
                            if start.stage != Stage::Quiet {
                                let e = self.list@[i];
                                let j = choose|j: int|
                                    0 <= j < before.list.len() && before.list[j] == e;
                                assert(quiet[j].mv == e.mv);
                            }
                        }
                        self.score_quiet(td, ply);
                    }
                    return picked;
                }
            }
            self.stage = Stage::BadNoisy;
        }
        assert(whole == next_bad(self@));
        if self.bad_noisy_idx < self.bad_noisy.len() {
            let mv = self.bad_noisy[self.bad_noisy_idx];
            self.bad_noisy_idx = self.bad_noisy_idx + 1;
            return Some(mv);
        }
        None
    }
}

/// A sequence with one more item holds what it held, and that item.
pub proof fn lemma_push_contains(moves: Seq<Move>, more: Move, mv: Move)
    ensures
        moves.push(more).contains(mv) == (moves.contains(mv) || mv == more),
{
    let all = moves.push(more);
    if moves.contains(mv) {
        let i = choose|i: int| 0 <= i < moves.len() && moves[i] == mv;
        assert(all[i] == mv);
    }
    if mv == more {
        assert(all[moves.len() as int] == mv);
    }
}

/// The entries that are left when one is taken out.
proof fn lemma_remove(list: Seq<MoveEntry>, i: int)
    requires
        0 <= i < list.len(),
    ensures
        list.remove(i).len() == list.len() - 1,
        forall|j: int|
            0 <= j < list.len() - 1 ==> #[trigger] list.remove(i)[j] == (if j < i {
                list[j]
            } else {
                list[j + 1]
            }),
{
}

} // verus!
