use trivia::error::Error;
use trivia::pools::QuestionPools;
use trivia::question::Question;

fn question(text: &str, answer: &str) -> Question {
    Question { question: text.to_string(), answer: answer.to_string() }
}

fn chars(text: &str) -> Vec<char> {
    text.chars().collect()
}

#[test]
fn record_of_unused_question_has_no_mark() {
    assert_eq!(question("Q1", "A1").to_string(false), "Q1|A1");
}

#[test]
fn record_of_used_question_starts_with_mark() {
    assert_eq!(question("Q1", "A1").to_string(true), "x_Q1|A1");
}

#[test]
fn record_keeps_text_beyond_ascii() {
    assert_eq!(question("Ünïcödé?", "ja ✓").to_string(true), "x_Ünïcödé?|ja ✓");
}

#[test]
fn parse_splits_at_the_first_bar() {
    assert_eq!(Question::parse(&chars("a|b|c")), Some((false, question("a", "b|c"))));
    assert_eq!(Question::parse(&chars("x_a|")), Some((true, question("a", ""))));
    assert_eq!(Question::parse(&chars("|b")), Some((false, question("", "b"))));
    assert_eq!(Question::parse(&chars("x|_")), Some((false, question("x", "_"))));
}

#[test]
fn parse_refuses_line_without_bar() {
    assert_eq!(Question::parse(&chars("no separator")), None);
    assert_eq!(Question::parse(&chars("x_")), None);
    assert_eq!(Question::parse(&chars("")), None);
}

#[test]
fn load_routes_records_by_mark() {
    let pools = QuestionPools::load("Q1|A1\nx_Q2|A2\n\nQ3|A3|more\n").unwrap();
    assert_eq!(pools.unused, vec![question("Q1", "A1"), question("Q3", "A3|more")]);
    assert_eq!(pools.used, vec![question("Q2", "A2")]);
}

#[test]
fn load_of_empty_text_gives_empty_pools() {
    let pools = QuestionPools::load("").unwrap();
    assert!(pools.unused.is_empty());
    assert!(pools.used.is_empty());
    assert_eq!(QuestionPools::load("\n\n\n").unwrap(), QuestionPools::new());
}

#[test]
fn load_refuses_line_without_bar() {
    assert_eq!(QuestionPools::load("Q1|A1\nQ2 A2\n"), Err(Error::MalformedBank));
    assert_eq!(QuestionPools::load("x_"), Err(Error::MalformedBank));
    assert_eq!(QuestionPools::load("Q1|A1\nx_Q2|A2\nlast"), Err(Error::MalformedBank));
}

#[test]
fn bank_text_lists_unused_then_used() {
    let pools = QuestionPools {
        unused: vec![question("a", "1"), question("b", "2")],
        used: vec![question("c", "3")],
    };
    assert_eq!(pools.to_string(), "a|1\nb|2\nx_c|3");
}

#[test]
fn bank_text_of_all_asked_bank_starts_with_blank_part() {
    let none_left = QuestionPools { unused: vec![], used: vec![question("c", "3")] };
    assert_eq!(none_left.to_string(), "\nx_c|3");
    let none_asked = QuestionPools { unused: vec![question("a", "1")], used: vec![] };
    assert_eq!(none_asked.to_string(), "a|1\n");
    assert_eq!(QuestionPools::new().to_string(), "\n");
}

#[test]
fn bank_text_reads_back_as_the_same_pools() {
    let pools = QuestionPools {
        unused: vec![question("capital of France?", "Paris"), question("2+2", "4|four")],
        used: vec![question("x_ marks what?", "a used question"), question("", "")],
    };
    assert_eq!(QuestionPools::load(&pools.to_string()), Ok(pools.clone()));
    let all_used = QuestionPools { unused: vec![], used: pools.used.clone() };
    assert_eq!(QuestionPools::load(&all_used.to_string()), Ok(all_used));
    let none_used = QuestionPools { unused: pools.unused.clone(), used: vec![] };
    assert_eq!(QuestionPools::load(&none_used.to_string()), Ok(none_used));
    assert_eq!(QuestionPools::load(&QuestionPools::new().to_string()), Ok(QuestionPools::new()));
}

#[test]
fn unused_question_with_mark_in_its_text_reads_back_as_used() {
    let pools = QuestionPools { unused: vec![question("x_ray?", "yes")], used: vec![] };
    let again = QuestionPools::load(&pools.to_string()).unwrap();
    assert!(again.unused.is_empty());
    assert_eq!(again.used, vec![question("ray?", "yes")]);
}

#[test]
fn take_removes_the_question_and_keeps_the_order() {
    let mut pools = QuestionPools::load("a|1\nb|2\nc|3\nx_d|4").unwrap();
    assert_eq!(pools.take(1), question("b", "2"));
    assert_eq!(pools.unused, vec![question("a", "1"), question("c", "3")]);
    assert_eq!(pools.used, vec![question("d", "4")]);
}

#[test]
fn mark_used_appends_to_the_used_pool() {
    let mut pools = QuestionPools::load("a|1\nx_d|4").unwrap();
    pools.mark_used(question("b", "2"));
    assert_eq!(pools.used, vec![question("d", "4"), question("b", "2")]);
    assert_eq!(pools.unused, vec![question("a", "1")]);
}

#[test]
fn draw_random_takes_one_unused_question() {
    for _ in 0..50 {
        let mut pools = QuestionPools::load("a|1\nb|2\nc|3\nx_d|4").unwrap();
        let before = pools.unused.clone();
        let drawn = pools.draw_random();
        assert!(before.contains(&drawn));
        assert_eq!(pools.unused.len(), 2);
        assert!(!pools.unused.contains(&drawn));
        let mut rest = before.clone();
        rest.retain(|q| *q != drawn);
        assert_eq!(pools.unused, rest);
        assert_eq!(pools.used, vec![question("d", "4")]);
    }
}

#[test]
fn draw_random_empties_the_pool_question_by_question() {
    let mut pools = QuestionPools::load("a|1\nb|2\nc|3").unwrap();
    let mut drawn = Vec::new();
    while !pools.unused.is_empty() {
        let q = pools.draw_random();
        pools.mark_used(q.clone());
        drawn.push(q);
    }
    assert_eq!(pools.used, drawn);
    drawn.sort_by(|a, b| a.question.cmp(&b.question));
    assert_eq!(drawn, vec![question("a", "1"), question("b", "2"), question("c", "3")]);
}

#[test]
fn draw_random_reaches_every_question() {
    let mut seen = [false; 3];
    for _ in 0..400 {
        let mut pools = QuestionPools::load("0|a\n1|b\n2|c").unwrap();
        let q = pools.draw_random();
        seen[q.question.parse::<usize>().unwrap()] = true;
    }
    assert_eq!(seen, [true, true, true]);
}

#[test]
fn error_messages_name_the_file() {
    assert!(Error::MalformedBank.message().starts_with("question bank:"));
    assert!(Error::MalformedLeaderboard.message().starts_with("leaderboard:"));
    assert_eq!(Error::UnknownPlayer.message(), "leaderboard: no such player");
}
