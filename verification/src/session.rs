//! One game: the rounds that are played on a question bank and a
//! leaderboard, as a machine that takes the operator's lines one by one and
//! says after each what is to be done next.
//!
//! A question that is skipped leaves the unused pool and enters no other:
//! it is kept aside for the rest of the game and is not written to the bank.

use vstd::prelude::*;
use crate::leaderboard::{credited, entered, LeaderBoard};
use crate::pools::{questions, QuestionPools};
use crate::question::{Question, QuestionView};
use crate::random::random_below;
use crate::response::{judge, select, selection_of, verdict_of, Verdict};
use crate::text::texts;

verus! {

/// Where a game stands.
#[derive(Debug, Clone, Copy, PartialEq, Eq, Structural)]
pub enum Phase {
    /// The operator is asked to start the next round.
    AwaitingStart,
    /// A question is shown, and the operator says when it was answered.
    Presenting,
    /// The answer is shown, and the operator judges what the player said.
    AwaitingOutcome,
    /// The judgment is made, and the operator names the player.
    AwaitingAttribution { correct: bool },
    /// All rounds were played.
    Done,
    /// A round was to start and no unused question was left.
    Exhausted,
}

/// What is to be done after a line was taken.
#[derive(Debug, Clone, Copy, PartialEq, Eq, Structural)]
pub enum Action {
    /// Ask the operator to start the next round.
    AwaitStart,
    /// Show the question that was drawn.
    Present,
    /// Show the answer and ask for the judgment.
    Judge,
    /// The line was no judgment: ask for it again.
    RetryJudge,
    /// Show the roster and ask who answered.
    Choose,
    /// The line chose no player: ask again.
    RetryChoose,
    /// A round was scored: write bank and leaderboard, then ask the
    /// operator to start the next round.
    Commit,
    /// The last round was scored: write bank and leaderboard. The game is
    /// over.
    Finish,
    /// No unused question is left: tell the operator, write bank and
    /// leaderboard. The game is over.
    Exhaust,
    /// The game was over before this line: nothing is to be done.
    Halt,
}

/// The state of a game.
pub struct SessionView {
    /// The questions that can still be drawn.
    pub unused: Seq<QuestionView>,
    /// The questions of the rounds that were scored, in the order of the
    /// rounds, behind those that the bank held as used.
    pub used: Seq<QuestionView>,
    /// The questions that were skipped, in the order in which they were.
    pub skipped: Seq<QuestionView>,
    /// The question of the round that is being played.
    pub in_flight: Option<QuestionView>,
    /// The scores by name.
    pub board: Map<Seq<char>, int>,
    /// The names of the players of this game; none for a game alone.
    pub roster: Seq<Seq<char>>,
    /// The number of rounds that are still to be scored.
    pub rounds_remaining: nat,
    /// The number of rounds that were scored.
    pub scored: nat,
    /// What a right answer adds to a score.
    pub points: int,
    /// What a wrong answer adds to a score.
    pub penalty: int,
    /// Where the game stands.
    pub phase: Phase,
}

/// The name under which a game without a roster is scored.
pub open spec fn solo() -> Seq<char> {
    seq!['Y', 'o', 'u']
}

/// The board after players were entered one after the other.
pub open spec fn entered_all(board: Map<Seq<char>, int>, names: Seq<Seq<char>>) -> Map<
    Seq<char>,
    int,
>
    decreases names.len(),
{
    if names.len() == 0 {
        board
    } else {
        entered(entered_all(board, names.drop_last()), names.last())
    }
}

/// The board at the start of a game: every player of the roster is entered,
/// and the solo player where the roster is empty.
pub open spec fn seeded(board: Map<Seq<char>, int>, roster: Seq<Seq<char>>) -> Map<
    Seq<char>,
    int,
> {
    if roster.len() == 0 {
        entered(board, solo())
    } else {
        entered_all(board, roster)
    }
}

/// The state at the start of a game.
pub open spec fn opening(
    unused: Seq<QuestionView>,
    used: Seq<QuestionView>,
    board: Map<Seq<char>, int>,
    roster: Seq<Seq<char>>,
    rounds: nat,
    points: int,
    penalty: int,
) -> SessionView {
    SessionView {
        unused,
        used,
        skipped: Seq::empty(),
        in_flight: None,
        board: seeded(board, roster),
        roster,
        rounds_remaining: rounds,
        scored: 0,
        points,
        penalty,
        phase: if rounds == 0 {
            Phase::Done
        } else {
            Phase::AwaitingStart
        },
    }
}

/// The player of a judgment that needs no choice: the solo player without
/// a roster, the only player of a roster of one, and nobody yet where the
/// roster holds more.
pub open spec fn sole_player(roster: Seq<Seq<char>>) -> Option<Seq<char>> {
    if roster.len() == 0 {
        Some(solo())
    } else if roster.len() == 1 {
        Some(roster[0])
    } else {
        None
    }
}

impl SessionView {
    /// The invariant of a game: the leaderboard holds every player that a
    /// round can be scored for, a question is in flight exactly while a
    /// round is being played, a player is chosen only from a roster of two
    /// or more, the game is done exactly when no round is left, and it is
    /// exhausted only with an empty unused pool.
    pub open spec fn wf(self) -> bool {
        &&& self.roster.len() == 0 ==> self.board.contains_key(solo())
        &&& forall|i: int|
            0 <= i < self.roster.len() ==> self.board.contains_key(#[trigger] self.roster[i])
        &&& self.in_flight is Some <==> (self.phase is Presenting || self.phase is AwaitingOutcome
            || self.phase is AwaitingAttribution)
        &&& self.phase is AwaitingAttribution ==> self.roster.len() >= 2
        &&& self.phase is Done <==> self.rounds_remaining == 0
        &&& self.phase is Exhausted ==> self.unused.len() == 0
    }

    /// True when the next line makes the game draw a question.
    pub open spec fn draws(self) -> bool {
        self.phase is AwaitingStart && self.unused.len() > 0
    }

    /// True when `pick` can be the place of the question that the next line
    /// draws: it is a place of the unused pool, or the line draws none.
    pub open spec fn admits(self, pick: int) -> bool {
        self.draws() ==> 0 <= pick < self.unused.len()
    }

    /// What a judgment adds to a score.
    pub open spec fn delta(self, correct: bool) -> int {
        if correct {
            self.points
        } else {
            self.penalty
        }
    }

    /// The player whose round the line scores, with the judgment, or `None`
    /// where the line scores no round.
    pub open spec fn attributed(self, line: Seq<char>) -> Option<(Seq<char>, bool)> {
        match self.phase {
            Phase::AwaitingOutcome => match (verdict_of(line), sole_player(self.roster)) {
                (Verdict::Correct, Some(name)) => Some((name, true)),
                (Verdict::Incorrect, Some(name)) => Some((name, false)),
                _ => None,
            },
            Phase::AwaitingAttribution { correct } => match selection_of(line, self.roster.len()) {
                Some(at) => Some((self.roster[at as int], correct)),
                None => None,
            },
            _ => None,
        }
    }

    /// True when the score that the line changes, if it changes one, stays
    /// in the range of `i32`.
    pub open spec fn affordable(self, line: Seq<char>) -> bool {
        self.attributed(line) matches Some((name, correct)) ==> i32::MIN <= self.board[name]
            + self.delta(correct) <= i32::MAX
    }

    /// The state after the round in flight was scored for a player, and what
    /// is to be done then.
    pub open spec fn score(self, name: Seq<char>, correct: bool) -> (SessionView, Action) {
        let remaining = (self.rounds_remaining - 1) as nat;
        (
            SessionView {
                used: self.used.push(self.in_flight->0),
                in_flight: None,
                board: credited(self.board, name, self.delta(correct)),
                rounds_remaining: remaining,
                scored: self.scored + 1,
                phase: if remaining == 0 {
                    Phase::Done
                } else {
                    Phase::AwaitingStart
                },
                ..self
            },
            if remaining == 0 {
                Action::Finish
            } else {
                Action::Commit
            },
        )
    }

    /// The state after a line of the operator, and what is to be done then.
    /// `pick` is the place of the question that is drawn, where one is.
    pub open spec fn next(self, line: Seq<char>, pick: int) -> (SessionView, Action) {
        match self.phase {
            Phase::AwaitingStart => if self.unused.len() == 0 {
                (SessionView { phase: Phase::Exhausted, ..self }, Action::Exhaust)
            } else {
                (
                    SessionView {
                        unused: self.unused.remove(pick),
                        in_flight: Some(self.unused[pick]),
                        phase: Phase::Presenting,
                        ..self
                    },
                    Action::Present,
                )
            },
            Phase::Presenting => (
                SessionView { phase: Phase::AwaitingOutcome, ..self },
                Action::Judge,
            ),
            Phase::AwaitingOutcome => match self.attributed(line) {
                Some((name, correct)) => self.score(name, correct),
                None => match verdict_of(line) {
                    Verdict::Correct => (
                        SessionView { phase: Phase::AwaitingAttribution { correct: true }, ..self },
                        Action::Choose,
                    ),
                    Verdict::Incorrect => (
                        SessionView {
                            phase: Phase::AwaitingAttribution { correct: false },
                            ..self
                        },
                        Action::Choose,
                    ),
                    Verdict::Skip => (
                        SessionView {
                            skipped: self.skipped.push(self.in_flight->0),
                            in_flight: None,
                            phase: Phase::AwaitingStart,
                            ..self
                        },
                        Action::AwaitStart,
                    ),
                    Verdict::Invalid => (self, Action::RetryJudge),
                },
            },
            Phase::AwaitingAttribution { .. } => match self.attributed(line) {
                Some((name, correct)) => self.score(name, correct),
                None => (self, Action::RetryChoose),
            },
            Phase::Done | Phase::Exhausted => (self, Action::Halt),
        }
    }
}

/// Entering players leaves every name on the board that it held, and puts
/// every entered name on it.
pub proof fn lemma_entered_all(board: Map<Seq<char>, int>, names: Seq<Seq<char>>)
    ensures
        forall|name: Seq<char>|
            board.contains_key(name) ==> #[trigger] entered_all(board, names).contains_key(name),
        forall|i: int|
            0 <= i < names.len() ==> entered_all(board, names).contains_key(#[trigger] names[i]),
    decreases names.len(),
{
    if names.len() > 0 {
        let init = names.drop_last();
        lemma_entered_all(board, init);
        assert forall|name: Seq<char>| board.contains_key(name) implies #[trigger] entered_all(
            board,
            names,
        ).contains_key(name) by {
            assert(entered_all(board, init).contains_key(name));
        }
        assert forall|i: int| 0 <= i < names.len() implies entered_all(board, names).contains_key(
            #[trigger] names[i],
        ) by {
            if i < init.len() {
                assert(init[i] == names[i]);
            }
        }
    }
}

/// A game in progress.
#[derive(Debug)]
pub struct GameSession {
    pools: QuestionPools,
    leaderboard: LeaderBoard,
    players: Vec<String>,
    rounds_remaining: u32,
    points_per_round: i32,
    wrong_penalty: i32,
    scored: u32,
    phase: Phase,
    in_flight: Option<Question>,
    skipped: Vec<Question>,
}

impl View for GameSession {
    type V = SessionView;

    closed spec fn view(&self) -> SessionView {
        SessionView {
            unused: self.pools@.unused,
            used: self.pools@.used,
            skipped: questions(self.skipped@),
            in_flight: match self.in_flight {
                Some(q) => Some(q@),
                None => None,
            },
            board: self.leaderboard@,
            roster: texts(self.players@),
            rounds_remaining: self.rounds_remaining as nat,
            scored: self.scored as nat,
            points: self.points_per_round as int,
            penalty: self.wrong_penalty as int,
            phase: self.phase,
        }
    }
}

impl GameSession {
    /// The invariant of the type: that of the state, with a leaderboard in
    /// order and a count of rounds that fits its type.
    pub closed spec fn wf(&self) -> bool {
        &&& self.leaderboard.wf()
        &&& self.scored + self.rounds_remaining <= u32::MAX
        &&& self@.wf()
    }

    /// Starts a game of `rounds` rounds. Every player of the roster is
    /// entered in the leaderboard, and the solo player where the roster is
    /// empty.
    pub fn new(
        pools: QuestionPools,
        leaderboard: LeaderBoard,
        players: Vec<String>,
        rounds: u32,
        points_per_round: i32,
        wrong_penalty: i32,
    ) -> (session: GameSession)
        requires
            leaderboard.wf(),
        ensures
            session.wf(),
            session@ == opening(
                pools@.unused,
                pools@.used,
                leaderboard@,
                texts(players@),
                rounds as nat,
                points_per_round as int,
                wrong_penalty as int,
            ),
    {
        let mut leaderboard = leaderboard;
        let ghost board = leaderboard@;
        let ghost roster = texts(players@);
        if players.len() == 0 {
            proof {
                reveal_strlit("You");
                assert("You"@ == solo());
            }
            leaderboard.ensure_player("You");
        } else {
            let mut i: usize = 0;
            while i < players.len()
                invariant
                    i <= players.len(),
                    roster == texts(players@),
                    leaderboard.wf(),
                    leaderboard@ == entered_all(board, roster.take(i as int)),
                decreases players.len() - i,
            {
                proof {
                    let next = roster.take(i + 1);
                    assert(next.drop_last() == roster.take(i as int));
                }
                leaderboard.ensure_player(players[i].as_str());
                i += 1;
            }
            assert(roster.take(players.len() as int) == roster);
        }
        proof {
            lemma_entered_all(board, roster);
        }
        let phase = if rounds == 0 {
            Phase::Done
        } else {
            Phase::AwaitingStart
        };
        let session = GameSession {
            pools,
            leaderboard,
            players,
            rounds_remaining: rounds,
            points_per_round,
            wrong_penalty,
            scored: 0,
            phase,
            in_flight: None,
            skipped: Vec::new(),
        };
        assert(session@.skipped == Seq::<QuestionView>::empty());
        session
    }

    /// Where the game stands.
    pub fn phase(&self) -> (phase: Phase)
        ensures
            phase == self@.phase,
    {
        self.phase
    }

    /// The two pools of the bank.
    pub fn pools(&self) -> (pools: &QuestionPools)
        ensures
            pools@.unused == self@.unused,
            pools@.used == self@.used,
    {
        &self.pools
    }

    /// The leaderboard.
    pub fn leaderboard(&self) -> (board: &LeaderBoard)
        requires
            self.wf(),
        ensures
            board.wf(),
            board@ == self@.board,
    {
        &self.leaderboard
    }

    /// The roster.
    pub fn players(&self) -> (players: &Vec<String>)
        ensures
            texts(players@) == self@.roster,
    {
        &self.players
    }

    /// The question of the round that is being played, if one is.
    pub fn question(&self) -> (q: Option<&Question>)
        ensures
            match q {
                Some(q) => self@.in_flight == Some(q@),
                None => self@.in_flight is None,
            },
    {
        self.in_flight.as_ref()
    }

    /// The questions that were skipped.
    pub fn skipped(&self) -> (skipped: &Vec<Question>)
        ensures
            questions(skipped@) == self@.skipped,
    {
        &self.skipped
    }

    /// The number of rounds that are still to be scored.
    pub fn rounds_remaining(&self) -> (rounds: u32)
        ensures
            rounds == self@.rounds_remaining,
    {
        self.rounds_remaining
    }

    /// The number of rounds that were scored.
    pub fn rounds_scored(&self) -> (rounds: u32)
        ensures
            rounds == self@.scored,
    {
        self.scored
    }

    /// The number of the round that is played or comes next, counted from
    /// 1, or `None` where the game is done.
    pub fn round_number(&self) -> (number: Option<u32>)
        requires
            self.wf(),
        ensures
            number == if self@.rounds_remaining == 0 {
                None
            } else {
                Some((self@.scored + 1) as u32)
            },
            self@.rounds_remaining > 0 ==> self@.scored + 1 <= u32::MAX,
    {
        if self.rounds_remaining == 0 {
            None
        } else {
            Some(self.scored + 1)
        }
    }

    /// The name of the player at a place of the roster, or of the solo
    /// player.
    spec fn name_of(&self, who: Option<usize>) -> Seq<char> {
        match who {
            Some(at) => self.players[at as int]@,
            None => solo(),
        }
    }

    /// Scores the round in flight for the player at a place of the roster,
    /// or for the solo player.
    fn settle(&mut self, who: Option<usize>, correct: bool) -> (action: Action)
        requires
            old(self).wf(),
            old(self)@.in_flight is Some,
            match who {
                Some(at) => at < old(self).players.len(),
                None => old(self).players.len() == 0,
            },
            i32::MIN <= old(self)@.board[old(self).name_of(who)] + old(self)@.delta(correct)
                <= i32::MAX,
        ensures
            final(self).wf(),
            (final(self)@, action) == old(self)@.score(old(self).name_of(who), correct),
    {
        let delta = if correct {
            self.points_per_round
        } else {
            self.wrong_penalty
        };
        let ghost name = self.name_of(who);
        proof {
            reveal_strlit("You");
            assert("You"@ == solo());
            if who is Some {
                assert(self@.roster[who->0 as int] == name);
            }
        }
        let done = match who {
            Some(at) => self.leaderboard.add_score(self.players[at].as_str(), delta),
            None => self.leaderboard.add_score("You", delta),
        };
        assert(done is Ok);
        let q = self.in_flight.take().unwrap();
        self.pools.mark_used(q);
        self.rounds_remaining = self.rounds_remaining - 1;
        self.scored = self.scored + 1;
        if self.rounds_remaining == 0 {
            self.phase = Phase::Done;
            Action::Finish
        } else {
            self.phase = Phase::AwaitingStart;
            Action::Commit
        }
    }

    /// Takes a line of the operator, with the place of the question to draw
    /// if this line draws one, and says what is to be done next.
    pub fn advance(&mut self, line: &str, pick: usize) -> (action: Action)
        requires
            old(self).wf(),
            old(self)@.admits(pick as int),
            old(self)@.affordable(line@),
        ensures
            final(self).wf(),
            (final(self)@, action) == old(self)@.next(line@, pick as int),
    {
        match self.phase {
            Phase::AwaitingStart => {
                if self.pools.unused.len() == 0 {
                    self.phase = Phase::Exhausted;
                    Action::Exhaust
                } else {
                    let q = self.pools.take(pick);
                    self.in_flight = Some(q);
                    self.phase = Phase::Presenting;
                    Action::Present
                }
            },
            Phase::Presenting => {
                self.phase = Phase::AwaitingOutcome;
                Action::Judge
            },
            Phase::AwaitingOutcome => {
                match judge(line) {
                    Verdict::Correct => self.decide(true),
                    Verdict::Incorrect => self.decide(false),
                    Verdict::Skip => {
                        let q = self.in_flight.take().unwrap();
                        assert(questions(self.skipped@.push(q)) == questions(self.skipped@).push(
                            q@,
                        ));
                        self.skipped.push(q);
                        self.phase = Phase::AwaitingStart;
                        Action::AwaitStart
                    },
                    Verdict::Invalid => Action::RetryJudge,
                }
            },
            Phase::AwaitingAttribution { correct } => {
                match select(line, self.players.len()) {
                    Some(at) => {
                        self.settle(Some(at), correct)
                    },
                    None => Action::RetryChoose,
                }
            },
            Phase::Done => Action::Halt,
            Phase::Exhausted => Action::Halt,
        }
    }

    /// Takes a judgment of the answer: scores the round where the player is
    /// known, and asks for the player where the roster holds two or more.
    fn decide(&mut self, correct: bool) -> (action: Action)
        requires
            old(self).wf(),
            old(self)@.phase is AwaitingOutcome,
            sole_player(old(self)@.roster) matches Some(name) ==> i32::MIN <= old(self)@.board[name]
                + old(self)@.delta(correct) <= i32::MAX,
        ensures
            final(self).wf(),
            (final(self)@, action) == match sole_player(old(self)@.roster) {
                Some(name) => old(self)@.score(name, correct),
                None => (
                    SessionView { phase: Phase::AwaitingAttribution { correct }, ..old(self)@ },
                    Action::Choose,
                ),
            },
    {
        if self.players.len() == 0 {
            self.settle(None, correct)
        } else if self.players.len() == 1 {
            self.settle(Some(0), correct)
        } else {
            self.phase = Phase::AwaitingAttribution { correct };
            Action::Choose
        }
    }

    /// The score of the player at a place of the roster, or of the solo
    /// player.
    fn score_of(&self, who: Option<usize>) -> (score: i32)
        requires
            self.wf(),
            match who {
                Some(at) => at < self.players.len(),
                None => self.players.len() == 0,
            },
        ensures
            score == self@.board[self.name_of(who)],
    {
        proof {
            reveal_strlit("You");
            assert("You"@ == solo());
            if who is Some {
                assert(self@.roster[who->0 as int] == self.name_of(who));
            }
        }
        let score = match who {
            Some(at) => self.leaderboard.score(self.players[at].as_str()),
            None => self.leaderboard.score("You"),
        };
        score.unwrap()
    }

    /// Decides whether the score that the line changes, if it changes one,
    /// stays in the range of `i32`.
    pub fn affords(&self, line: &str) -> (fits: bool)
        requires
            self.wf(),
        ensures
            fits == self@.affordable(line@),
    {
        let sole: Option<Option<usize>> = if self.players.len() == 0 {
            Some(None)
        } else if self.players.len() == 1 {
            Some(Some(0))
        } else {
            None
        };
        let due: Option<(Option<usize>, bool)> = match self.phase {
            Phase::AwaitingOutcome => match (judge(line), sole) {
                (Verdict::Correct, Some(who)) => Some((who, true)),
                (Verdict::Incorrect, Some(who)) => Some((who, false)),
                _ => None,
            },
            Phase::AwaitingAttribution { correct } => match select(line, self.players.len()) {
                Some(at) => Some((Some(at), correct)),
                None => None,
            },
            _ => None,
        };
        match due {
            Some((who, correct)) => {
                proof {
                    if who is Some {
                        assert(self@.roster[who->0 as int] == self.name_of(who));
                    }
                }
                let delta = if correct {
                    self.points_per_round
                } else {
                    self.wrong_penalty
                };
                self.score_of(who).checked_add(delta).is_some()
            },
            None => {
                true
            },
        }
    }

    /// Takes a line of the operator and says what is to be done next. Where
    /// the line starts a round, the question is drawn at random from the
    /// unused pool. Where the line would take a score out of the range of
    /// `i32`, nothing changes and the result is `None`.
    pub fn step(&mut self, line: &str) -> (action: Option<Action>)
        requires
            old(self).wf(),
        ensures
            final(self).wf(),
            match action {
                Some(action) => {
                    &&& old(self)@.affordable(line@)
                    &&& exists|pick: int| #[trigger]
                        old(self)@.admits(pick) && old(self)@.next(line@, pick) == (
                            final(self)@,
                            action,
                        )
                },
                None => !old(self)@.affordable(line@) && final(self)@ == old(self)@,
            },
    {
        if !self.affords(line) {
            return None;
        }
        let pick = if self.phase == Phase::AwaitingStart && self.pools.unused.len() > 0 {
            random_below(self.pools.unused.len())
        } else {
            0
        };
        let action = self.advance(line, pick);
        assert(old(self)@.admits(pick as int));
        Some(action)
    }
}

} // verus!
