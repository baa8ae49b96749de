use trivia::leaderboard::LeaderBoard;
use trivia::pools::QuestionPools;
use trivia::question::Question;
use trivia::session::{Action, GameSession, Phase};

fn question(text: &str, answer: &str) -> Question {
    Question { question: text.to_string(), answer: answer.to_string() }
}

fn session(bank: &str, board: &str, players: &[&str], rounds: u32, points: i32, penalty: i32) -> GameSession {
    GameSession::new(
        QuestionPools::load(bank).unwrap(),
        LeaderBoard::load(board).unwrap(),
        players.iter().map(|p| p.to_string()).collect(),
        rounds,
        points,
        penalty,
    )
}

fn play(s: &mut GameSession, lines: &[&str]) -> Vec<Action> {
    lines.iter().map(|line| s.step(line).unwrap()).collect()
}

#[test]
fn two_rounds_alone_score_ten_then_five() {
    let mut s = session("Q1|A1\nQ2|A2", "", &[], 2, 10, -5);
    assert_eq!(s.phase(), Phase::AwaitingStart);
    assert_eq!(s.leaderboard().to_string(), "You 0");
    assert_eq!(s.round_number(), Some(1));

    assert_eq!(s.step("\n"), Some(Action::Present));
    let first = s.question().unwrap().clone();
    assert!(first == question("Q1", "A1") || first == question("Q2", "A2"));
    assert_eq!(s.pools().unused.len(), 1);
    assert_eq!(s.step("\n"), Some(Action::Judge));
    assert_eq!(s.step("y\n"), Some(Action::Commit));
    assert_eq!(s.leaderboard().score("You"), Some(10));
    assert_eq!(s.pools().used, vec![first.clone()]);
    assert_eq!(s.round_number(), Some(2));

    assert_eq!(s.step("\n"), Some(Action::Present));
    let second = s.question().unwrap().clone();
    assert_ne!(first, second);
    assert_eq!(s.step("\n"), Some(Action::Judge));
    assert_eq!(s.step("n\n"), Some(Action::Finish));
    assert_eq!(s.phase(), Phase::Done);
    assert_eq!(s.leaderboard().score("You"), Some(5));
    assert_eq!(s.leaderboard().to_string(), "You 5");
    let bank = s.pools().to_string();
    assert!(bank == "\nx_Q1|A1\nx_Q2|A2" || bank == "\nx_Q2|A2\nx_Q1|A1", "{:?}", bank);
    assert_eq!(s.rounds_scored(), 2);
    assert_eq!(s.rounds_remaining(), 0);
    assert_eq!(s.round_number(), None);
    assert_eq!(s.step("\n"), Some(Action::Halt));
}

#[test]
fn picked_question_is_the_one_presented() {
    let mut s = session("a|1\nb|2\nc|3\nx_d|4", "", &[], 3, 1, 0);
    assert_eq!(s.advance("", 1), Action::Present);
    assert_eq!(s.phase(), Phase::Presenting);
    assert_eq!(s.question(), Some(&question("b", "2")));
    assert_eq!(s.pools().unused, vec![question("a", "1"), question("c", "3")]);
    assert_eq!(s.pools().used, vec![question("d", "4")]);
    assert_eq!(s.advance("anything", 0), Action::Judge);
    assert_eq!(s.phase(), Phase::AwaitingOutcome);
    assert_eq!(s.advance("", 0), Action::Commit);
    assert_eq!(s.phase(), Phase::AwaitingStart);
    assert_eq!(s.question(), None);
    assert_eq!(s.pools().used, vec![question("d", "4"), question("b", "2")]);
    assert_eq!(s.pools().to_string(), "a|1\nc|3\nx_d|4\nx_b|2");
}

#[test]
fn bank_runs_out_after_one_round_for_each_question() {
    let mut s = session("a|1\nb|2\nc|3", "", &[], 10, 2, -1);
    let mut scored = 0;
    loop {
        match s.step("\n").unwrap() {
            Action::Present => {
                assert_eq!(s.step("\n"), Some(Action::Judge));
                assert_eq!(s.step("y\n"), Some(Action::Commit));
                scored += 1;
            }
            action => {
                assert_eq!(action, Action::Exhaust);
                break;
            }
        }
    }
    assert_eq!(scored, 3);
    assert_eq!(s.phase(), Phase::Exhausted);
    assert_eq!(s.rounds_scored(), 3);
    assert_eq!(s.rounds_remaining(), 7);
    assert!(s.pools().unused.is_empty());
    assert_eq!(s.pools().used.len(), 3);
    assert_eq!(s.leaderboard().to_string(), "You 6");
    assert_eq!(s.step("\n"), Some(Action::Halt));
    assert_eq!(s.step("y"), Some(Action::Halt));
    assert_eq!(s.phase(), Phase::Exhausted);
}

#[test]
fn empty_bank_is_exhausted_at_the_first_round() {
    let mut s = session("x_a|1", "", &[], 1, 1, 1);
    assert_eq!(s.step(""), Some(Action::Exhaust));
    assert_eq!(s.phase(), Phase::Exhausted);
    assert_eq!(s.rounds_scored(), 0);
    assert_eq!(s.pools().to_string(), "\nx_a|1");
}

#[test]
fn game_of_no_rounds_is_done_at_once() {
    let mut s = session("a|1", "Ann 2", &["Bo"], 0, 1, 1);
    assert_eq!(s.phase(), Phase::Done);
    assert_eq!(s.round_number(), None);
    assert_eq!(s.step(""), Some(Action::Halt));
    assert_eq!(s.leaderboard().to_string(), "Ann 2\nBo 0");
    assert_eq!(s.pools().to_string(), "a|1\n");
}

#[test]
fn skipped_question_leaves_the_bank_and_the_round_is_played_again() {
    let mut s = session("a|1\nb|2", "", &[], 1, 3, 0);
    assert_eq!(s.advance("", 0), Action::Present);
    assert_eq!(s.advance("", 0), Action::Judge);
    assert_eq!(s.advance("s\n", 0), Action::AwaitStart);
    assert_eq!(s.phase(), Phase::AwaitingStart);
    assert_eq!(s.round_number(), Some(1));
    assert_eq!(s.rounds_remaining(), 1);
    assert_eq!(s.question(), None);
    assert_eq!(s.skipped(), &vec![question("a", "1")]);
    assert_eq!(s.pools().to_string(), "b|2\n");
    assert_eq!(s.leaderboard().score("You"), Some(0));
    assert_eq!(s.advance("", 0), Action::Present);
    assert_eq!(s.question(), Some(&question("b", "2")));
    assert_eq!(s.advance("", 0), Action::Judge);
    assert_eq!(s.advance("y", 0), Action::Finish);
    assert_eq!(s.pools().to_string(), "\nx_b|2");
    assert_eq!(s.skipped(), &vec![question("a", "1")]);
    assert_eq!(s.leaderboard().score("You"), Some(3));
}

#[test]
fn skipping_every_question_exhausts_the_bank() {
    let mut s = session("a|1\nb|2", "", &[], 1, 3, 0);
    assert_eq!(
        play(&mut s, &["", "", "s", "", "", "s", ""]),
        vec![
            Action::Present,
            Action::Judge,
            Action::AwaitStart,
            Action::Present,
            Action::Judge,
            Action::AwaitStart,
            Action::Exhaust,
        ]
    );
    assert_eq!(s.skipped().len(), 2);
    assert_eq!(s.rounds_scored(), 0);
    assert_eq!(s.pools().to_string(), "\n");
}

#[test]
fn line_that_is_no_judgment_is_asked_again() {
    let mut s = session("a|1", "", &[], 1, 3, -2);
    assert_eq!(play(&mut s, &["", ""]), vec![Action::Present, Action::Judge]);
    for line in ["maybe", "Y", "0", "yes"] {
        assert_eq!(s.step(line), Some(Action::RetryJudge));
        assert_eq!(s.phase(), Phase::AwaitingOutcome);
        assert_eq!(s.question(), Some(&question("a", "1")));
        assert_eq!(s.rounds_scored(), 0);
    }
    assert_eq!(s.step("n"), Some(Action::Finish));
    assert_eq!(s.leaderboard().score("You"), Some(-2));
}

#[test]
fn menu_choice_attributes_the_round() {
    let mut s = session("a|1\nb|2", "", &["Ann", "Bo"], 2, 10, -5);
    assert_eq!(s.leaderboard().to_string(), "Bo 0\nAnn 0");
    assert_eq!(play(&mut s, &["", "", "y"]), vec![Action::Present, Action::Judge, Action::Choose]);
    assert_eq!(s.phase(), Phase::AwaitingAttribution { correct: true });
    for line in ["0", "3", "x", "", "-1", "Bo"] {
        assert_eq!(s.step(line), Some(Action::RetryChoose), "{:?}", line);
        assert_eq!(s.phase(), Phase::AwaitingAttribution { correct: true });
        assert_eq!(s.rounds_scored(), 0);
        assert_eq!(s.rounds_remaining(), 2);
        assert!(s.question().is_some());
        assert_eq!(s.leaderboard().to_string(), "Bo 0\nAnn 0");
    }
    assert_eq!(s.step("2\n"), Some(Action::Commit));
    assert_eq!(s.leaderboard().score("Bo"), Some(10));
    assert_eq!(s.leaderboard().score("Ann"), Some(0));
    assert_eq!(play(&mut s, &["", "", "n"]), vec![Action::Present, Action::Judge, Action::Choose]);
    assert_eq!(s.phase(), Phase::AwaitingAttribution { correct: false });
    assert_eq!(s.step("1"), Some(Action::Finish));
    assert_eq!(s.leaderboard().to_string(), "Bo 10\nAnn -5");
    assert!(!s.leaderboard().contains("You"));
}

#[test]
fn roster_of_one_needs_no_choice() {
    let mut s = session("a|1\nb|2", "Cy 7", &["Cy"], 2, 10, -5);
    assert_eq!(play(&mut s, &["", "", "y"]), vec![Action::Present, Action::Judge, Action::Commit]);
    assert_eq!(s.leaderboard().to_string(), "Cy 17");
    assert_eq!(play(&mut s, &["", "", "n"]), vec![Action::Present, Action::Judge, Action::Finish]);
    assert_eq!(s.leaderboard().to_string(), "Cy 12");
}

#[test]
fn players_are_entered_before_the_first_round() {
    let s = session("a|1", "Ann 4\nZed 1", &["Bo", "Ann", "Bo"], 1, 1, 1);
    assert_eq!(s.leaderboard().to_string(), "Ann 4\nZed 1\nBo 0");
    assert_eq!(s.players(), &vec!["Bo".to_string(), "Ann".to_string(), "Bo".to_string()]);
    let solo = session("a|1", "Ann 4", &[], 1, 1, 1);
    assert_eq!(solo.leaderboard().to_string(), "Ann 4\nYou 0");
    let known = session("a|1", "You 9", &[], 1, 1, 1);
    assert_eq!(known.leaderboard().to_string(), "You 9");
}

#[test]
fn score_after_rounds_for_one_player_is_start_plus_rounds_times_points() {
    let bank: String = (0..20).map(|i| format!("q{}|a{}\n", i, i)).collect();
    let mut right = session(&bank, "Ann 4\nBo 1", &["Bo", "Ann"], 20, 7, -3);
    for _ in 0..20 {
        play(&mut right, &["", "", "y", "2"]);
    }
    assert_eq!(right.leaderboard().score("Ann"), Some(4 + 20 * 7));
    assert_eq!(right.leaderboard().score("Bo"), Some(1));
    let mut wrong = session(&bank, "Ann 4\nBo 1", &["Bo", "Ann"], 20, 7, -3);
    for _ in 0..13 {
        play(&mut wrong, &["", "", "n", "1"]);
    }
    assert_eq!(wrong.leaderboard().score("Bo"), Some(1 + 13 * -3));
    assert_eq!(wrong.leaderboard().score("Ann"), Some(4));
}

#[test]
fn every_question_stays_in_exactly_one_place() {
    let bank: String = (0..12).map(|i| format!("q{}|a{}\n", i, i)).collect();
    let mut s = session(&format!("{}x_old|done", bank), "", &[], 8, 1, 0);
    let verdicts = ["y", "s", "n", "s", "s", "y", "y", "n", "s", "y", "n", "y", "y"];
    let mut turn = 0;
    while s.phase() != Phase::Done && s.phase() != Phase::Exhausted {
        let line = match s.phase() {
            Phase::AwaitingOutcome => {
                turn += 1;
                verdicts[turn - 1]
            }
            _ => "",
        };
        s.step(line).unwrap();
        for i in 0..12 {
            let q = question(&format!("q{}", i), &format!("a{}", i));
            let places = [
                s.pools().unused.contains(&q),
                s.pools().used.contains(&q),
                s.skipped().contains(&q),
                s.question() == Some(&q),
            ];
            assert_eq!(places.iter().filter(|held| **held).count(), 1, "{:?}", q);
        }
        assert!(s.pools().used.contains(&question("old", "done")));
    }
    assert_eq!(s.phase(), Phase::Done);
    assert_eq!(s.rounds_scored(), 8);
    assert_eq!(s.skipped().len(), 4);
    assert_eq!(s.pools().unused.len(), 0);
    assert_eq!(s.pools().used.len(), 9);
}

#[test]
fn score_that_would_leave_the_range_stops_the_step() {
    let mut s = session("a|1\nb|2", "You 2147483640", &[], 2, 10, -5);
    assert_eq!(play(&mut s, &["", ""]), vec![Action::Present, Action::Judge]);
    assert!(!s.affords("y"));
    assert!(s.affords("n"));
    assert!(s.affords("s"));
    assert!(s.affords("what"));
    assert_eq!(s.step("y"), None);
    assert_eq!(s.phase(), Phase::AwaitingOutcome);
    assert_eq!(s.leaderboard().score("You"), Some(2147483640));
    assert!(s.question().is_some());
    assert_eq!(s.step("n"), Some(Action::Commit));
    assert_eq!(s.leaderboard().score("You"), Some(2147483635));
    let mut low = session("a|1", "Ann -2147483648\nBo 0", &["Ann", "Bo"], 1, 1, -1);
    assert_eq!(play(&mut low, &["", "", "n"]), vec![Action::Present, Action::Judge, Action::Choose]);
    assert!(!low.affords("1"));
    assert!(low.affords("2"));
    assert!(low.affords("3"));
    assert_eq!(low.step("1"), None);
    assert_eq!(low.step("2"), Some(Action::Finish));
    assert_eq!(low.leaderboard().to_string(), "Bo -1\nAnn -2147483648");
}
