//! What holds of a game after any sequence of lines: no question is lost
//! or made up, a score moves by the rounds that were scored for it, and a
//! bank that runs out ends the game.

use vstd::prelude::*;
use vstd::multiset::Multiset;
use vstd::seq_lib::{to_multiset_build, to_multiset_remove};
use crate::question::QuestionView;
use crate::session::{Action, SessionView};

verus! {

/// A line of the operator, with the place of the question that the game
/// draws if the line makes it draw one.
pub struct Input {
    pub line: Seq<char>,
    pub pick: int,
}

/// True when the input can be taken in the state: where it draws a
/// question, its place is one of the unused pool.
pub open spec fn admissible(s: SessionView, input: Input) -> bool {
    s.admits(input.pick)
}

/// The state after a sequence of inputs.
pub open spec fn run(s: SessionView, inputs: Seq<Input>) -> SessionView
    decreases inputs.len(),
{
    if inputs.len() == 0 {
        s
    } else {
        run(s, inputs.drop_last()).next(inputs.last().line, inputs.last().pick).0
    }
}

/// True when each input can be taken in the state that the inputs before it
/// lead to.
pub open spec fn playable(s: SessionView, inputs: Seq<Input>) -> bool
    decreases inputs.len(),
{
    inputs.len() == 0 || (playable(s, inputs.drop_last()) && admissible(
        run(s, inputs.drop_last()),
        inputs.last(),
    ))
}

/// The question in flight, as a collection of one or none.
pub open spec fn flying(s: SessionView) -> Multiset<QuestionView> {
    match s.in_flight {
        Some(q) => Multiset::singleton(q),
        None => Multiset::empty(),
    }
}

/// All questions of a game, each as often as it occurs: those of the two
/// pools, those that were skipped, and the one in flight.
pub open spec fn ledger(s: SessionView) -> Multiset<QuestionView> {
    s.unused.to_multiset().add(s.used.to_multiset()).add(s.skipped.to_multiset()).add(flying(s))
}

/// A line leaves the invariant of the game in place.
pub proof fn lemma_next_wf(s: SessionView, input: Input)
    requires
        s.wf(),
        admissible(s, input),
    ensures
        s.next(input.line, input.pick).0.wf(),
{
}

/// A line neither loses a question nor makes one up.
pub proof fn lemma_next_keeps_questions(s: SessionView, input: Input)
    requires
        s.wf(),
        admissible(s, input),
    ensures
        ledger(s.next(input.line, input.pick).0) == ledger(s),
{
    let t = s.next(input.line, input.pick).0;
    if s.draws() {
        to_multiset_remove(s.unused, input.pick);
        lemma_count_contains(s.unused, s.unused[input.pick]);
    } else if s.in_flight is Some && t.in_flight is None {
        let q = s.in_flight->0;
        to_multiset_build(s.used, q);
        to_multiset_build(s.skipped, q);
    } else {
        assert(ledger(t) =~= ledger(s));
    }
}

/// After any sequence of lines the invariant of the game holds, and the
/// game holds the questions that it started with, each as often as then.
pub proof fn lemma_run_keeps_questions(start: SessionView, inputs: Seq<Input>)
    requires
        start.wf(),
        playable(start, inputs),
    ensures
        run(start, inputs).wf(),
        ledger(run(start, inputs)) == ledger(start),
    decreases inputs.len(),
{
    if inputs.len() > 0 {
        lemma_run_keeps_questions(start, inputs.drop_last());
        lemma_next_wf(run(start, inputs.drop_last()), inputs.last());
        lemma_next_keeps_questions(run(start, inputs.drop_last()), inputs.last());
    }
}

/// The number of the four places that hold the question: the unused pool,
/// the used pool, the skipped questions, and the round in flight.
pub open spec fn places_holding(s: SessionView, q: QuestionView) -> int {
    (if s.unused.contains(q) {
        1int
    } else {
        0
    }) + (if s.used.contains(q) {
        1int
    } else {
        0
    }) + (if s.skipped.contains(q) {
        1int
    } else {
        0
    }) + (if s.in_flight == Some(q) {
        1int
    } else {
        0
    })
}

/// A question that the game started with once is, after any sequence of
/// lines, in exactly one place: unused, used, skipped or in flight. So no
/// question of a bank without repeated questions is in two pools.
pub proof fn lemma_partition(start: SessionView, inputs: Seq<Input>, q: QuestionView)
    requires
        start.wf(),
        playable(start, inputs),
        ledger(start).count(q) == 1,
    ensures
        places_holding(run(start, inputs), q) == 1,
{
    let s = run(start, inputs);
    lemma_run_keeps_questions(start, inputs);
    lemma_count_contains(s.unused, q);
    lemma_count_contains(s.used, q);
    lemma_count_contains(s.skipped, q);
}

/// A sequence holds a value exactly where the value counts in it.
proof fn lemma_count_contains(qs: Seq<QuestionView>, q: QuestionView)
    ensures
        qs.contains(q) <==> qs.to_multiset().count(q) > 0,
{
    vstd::seq_lib::to_multiset_contains(qs, q);
}

/// A game that is over stays as it is, whatever the line.
pub proof fn lemma_over_stays_over(s: SessionView, input: Input)
    requires
        s.phase is Done || s.phase is Exhausted,
    ensures
        s.next(input.line, input.pick) == (s, Action::Halt),
{
}

/// The count of what can still be scored: after any sequence of lines, the
/// rounds that were scored, the unused questions, the skipped ones and the
/// one in flight are as many as when the game started, and so are the
/// rounds scored and still to score.
pub proof fn lemma_run_counts(start: SessionView, inputs: Seq<Input>)
    requires
        start.wf(),
        playable(start, inputs),
    ensures
        ({
            let s = run(start, inputs);
            &&& s.scored + s.rounds_remaining == start.scored + start.rounds_remaining
            &&& s.scored >= start.scored
            &&& s.skipped.len() >= start.skipped.len()
            &&& s.scored + s.unused.len() + s.skipped.len() + flying(s).len() == start.scored
                + start.unused.len() + start.skipped.len() + flying(start).len()
        }),
    decreases inputs.len(),
{
    if inputs.len() > 0 {
        lemma_run_counts(start, inputs.drop_last());
        lemma_run_keeps_questions(start, inputs.drop_last());
    }
}

/// A game without skips that is set for more rounds than the bank holds
/// unused questions never gets done: it scores at most one round for each
/// question, and where it stands exhausted it has scored exactly one round
/// for each.
pub proof fn lemma_exhaustion(start: SessionView, inputs: Seq<Input>)
    requires
        start.wf(),
        start.in_flight is None,
        playable(start, inputs),
        run(start, inputs).skipped.len() == start.skipped.len(),
    ensures
        ({
            let s = run(start, inputs);
            &&& s.scored - start.scored <= start.unused.len()
            &&& s.phase is Exhausted ==> s.scored - start.scored == start.unused.len()
            &&& start.rounds_remaining > start.unused.len() ==> !(s.phase is Done)
        }),
{
    lemma_run_counts(start, inputs);
    lemma_run_keeps_questions(start, inputs);
}

/// True when every round that the inputs score is scored for the given
/// player with the given judgment.
pub open spec fn scores_only(
    s: SessionView,
    inputs: Seq<Input>,
    name: Seq<char>,
    correct: bool,
) -> bool
    decreases inputs.len(),
{
    inputs.len() == 0 || (scores_only(s, inputs.drop_last(), name, correct) && match run(
        s,
        inputs.drop_last(),
    ).attributed(inputs.last().line) {
        Some(credit) => credit == (name, correct),
        None => true,
    })
}

/// After rounds that were all scored for one player with one judgment, the
/// score of that player is what it was, and for each round what a right
/// answer adds, or for each round what a wrong answer adds.
pub proof fn lemma_score_delta(
    start: SessionView,
    inputs: Seq<Input>,
    name: Seq<char>,
    correct: bool,
)
    requires
        start.wf(),
        playable(start, inputs),
        scores_only(start, inputs, name, correct),
    ensures
        ({
            let s = run(start, inputs);
            &&& s.points == start.points
            &&& s.penalty == start.penalty
            &&& s.board[name] == start.board[name] + (s.scored - start.scored) * start.delta(
                correct,
            )
        }),
    decreases inputs.len(),
{
    if inputs.len() > 0 {
        let before = run(start, inputs.drop_last());
        lemma_score_delta(start, inputs.drop_last(), name, correct);
        lemma_run_keeps_questions(start, inputs.drop_last());
        let rounds = before.scored - start.scored;
        let delta = start.delta(correct);
        assert((rounds + 1) * delta == rounds * delta + delta) by (nonlinear_arith);
    }
}

} // verus!
