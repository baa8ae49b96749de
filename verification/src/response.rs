//! What the operator types at a prompt: the judgment of an answer, and the
//! choice of the player who gave it.

use vstd::prelude::*;
use vstd::string::StringExecFns;
use crate::decimal::{digits, lemma_unsigned_nonnegative, parse_unsigned, push_digits, read_usize};
use crate::text::{chars_of, join, push_joined, texts, trim, trimmed};

verus! {

/// The operator's judgment of an answer.
#[derive(Debug, Clone, Copy, PartialEq, Eq, Structural)]
pub enum Verdict {
    /// The answer was right.
    Correct,
    /// The answer was wrong.
    Incorrect,
    /// The question is given up for this round.
    Skip,
    /// The line is none of the accepted responses.
    Invalid,
}

/// The judgment that a line states, white space at its ends left aside:
/// nothing or `y` for a right answer, `n` for a wrong one, `s` to skip.
pub open spec fn verdict_of(line: Seq<char>) -> Verdict {
    let response = trim(line);
    if response.len() == 0 || response == seq!['y'] {
        Verdict::Correct
    } else if response == seq!['n'] {
        Verdict::Incorrect
    } else if response == seq!['s'] {
        Verdict::Skip
    } else {
        Verdict::Invalid
    }
}

/// The place in a roster of `roster` players that a line chooses, white
/// space at its ends left aside: the line is a number from 1 to `roster`,
/// and the place is one less, the first place being 0. Any other line
/// chooses nothing.
pub open spec fn selection_of(line: Seq<char>, roster: nat) -> Option<usize> {
    match parse_unsigned(trim(line)) {
        Some(number) if 1 <= number <= roster => Some((number - 1) as usize),
        _ => None,
    }
}

/// Reads the operator's judgment of an answer.
pub fn judge(line: &str) -> (verdict: Verdict)
    ensures
        verdict == verdict_of(line@),
{
    let chars = chars_of(line);
    let (from, to) = trimmed(&chars);
    let ghost response = chars@.subrange(from as int, to as int);
    if from == to {
        Verdict::Correct
    } else if to - from == 1 {
        let c = chars[from];
        assert(response[0] == c);
        assert(response == seq![c]);
        if c == 'y' {
            Verdict::Correct
        } else if c == 'n' {
            Verdict::Incorrect
        } else if c == 's' {
            Verdict::Skip
        } else {
            Verdict::Invalid
        }
    } else {
        assert(seq!['y'].len() == 1 && seq!['n'].len() == 1 && seq!['s'].len() == 1);
        Verdict::Invalid
    }
}

/// Reads the operator's choice among `roster` players.
pub fn select(line: &str, roster: usize) -> (place: Option<usize>)
    ensures
        place == selection_of(line@, roster as nat),
        place matches Some(at) ==> at < roster,
{
    let chars = chars_of(line);
    let (from, to) = trimmed(&chars);
    proof {
        lemma_unsigned_nonnegative(trim(line@));
    }
    match read_usize(&chars, from, to) {
        Some(number) => {
            if 1 <= number && number <= roster {
                Some(number - 1)
            } else {
                None
            }
        },
        None => None,
    }
}

/// The line of the menu for the player at a place of the roster: the
/// number that chooses the player, in square brackets, and the name.
pub open spec fn menu_line(place: int, name: Seq<char>) -> Seq<char> {
    seq![' ', ' ', '['] + digits((place + 1) as nat) + seq![']', ' '] + name
}

/// The menu of a roster: one line for each player, in the order of the
/// roster, with a line break between two lines.
pub open spec fn menu_text(roster: Seq<Seq<char>>) -> Seq<char> {
    join(Seq::new(roster.len(), |place: int| menu_line(place, roster[place])), '\n')
}

/// Writes the menu from which the operator chooses a player.
pub fn menu(roster: &Vec<String>) -> (text: String)
    ensures
        text@ == menu_text(texts(roster@)),
{
    let ghost all = Seq::new(
        roster.len() as nat,
        |place: int| menu_line(place, texts(roster@)[place]),
    );
    let mut lines: Vec<String> = Vec::new();
    let mut i: usize = 0;
    while i < roster.len()
        invariant
            i <= roster.len(),
            all == Seq::new(
                roster.len() as nat,
                |place: int| menu_line(place, texts(roster@)[place]),
            ),
            texts(lines@) == all.take(i as int),
        decreases roster.len() - i,
    {
        let mut line = String::new();
        proof {
            reveal_strlit("  [");
            reveal_strlit("] ");
        }
        line.append("  [");
        push_digits(&mut line, i as u64 + 1);
        line.append("] ");
        line.append(roster[i].as_str());
        proof {
            assert("  ["@ == seq![' ', ' ', '[']);
            assert("] "@ == seq![']', ' ']);
            assert(texts(lines@.push(line)) == texts(lines@).push(line@));
        }
        lines.push(line);
        i += 1;
    }
    assert(all.take(roster.len() as int) == all);
    let mut text = String::new();
    push_joined(&mut text, &lines, '\n');
    text
}

} // verus!
