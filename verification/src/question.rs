//! A trivia question and the line of the bank file that records it.

use vstd::prelude::*;
use vstd::string::StringExecFns;
use crate::text::{find, find_in, string_of};

verus! {

/// A question of the bank, with the answer to it.
#[derive(Debug, Clone, PartialEq, Eq)]
pub struct Question {
    pub question: String,
    pub answer: String,
}

/// What a question holds, as sequences of characters.
pub struct QuestionView {
    pub text: Seq<char>,
    pub answer: Seq<char>,
}

impl View for Question {
    type V = QuestionView;

    open spec fn view(&self) -> QuestionView {
        QuestionView { text: self.question@, answer: self.answer@ }
    }
}

/// True when `line` starts with the mark `x_` of a question that was asked.
pub open spec fn marked(line: Seq<char>) -> bool {
    line.len() >= 2 && line[0] == 'x' && line[1] == '_'
}

/// The line that records a question: the mark `x_` where it was asked, the
/// text, a bar, and the answer.
pub open spec fn record(q: QuestionView, asked: bool) -> Seq<char> {
    if asked {
        seq!['x', '_'] + q.text + seq!['|'] + q.answer
    } else {
        q.text + seq!['|'] + q.answer
    }
}

/// What a line records: whether the question was asked, and the question.
/// Behind the mark, if there is one, the text ends at the first bar and the
/// answer is all that follows it. A line without a bar records nothing.
pub open spec fn parse_record(line: Seq<char>) -> Option<(bool, QuestionView)> {
    let asked = marked(line);
    let body = if asked {
        line.skip(2)
    } else {
        line
    };
    let bar = find(body, '|') as int;
    if bar < body.len() {
        Some((asked, QuestionView { text: body.take(bar), answer: body.skip(bar + 1) }))
    } else {
        None
    }
}

impl Question {
    /// The line that records this question in the bank file.
    pub fn to_string(&self, asked: bool) -> (line: String)
        ensures
            line@ == record(self@, asked),
    {
        let mut line = String::new();
        if asked {
            proof {
                reveal_strlit("x_");
            }
            line.append("x_");
        }
        line.append(self.question.as_str());
        line.push('|');
        line.append(self.answer.as_str());
        line
    }

    /// Reads the question that `line` records, and whether it was asked.
    pub fn parse(line: &Vec<char>) -> (parsed: Option<(bool, Question)>)
        ensures
            match parsed {
                Some((asked, q)) => parse_record(line@) == Some((asked, q@)),
                None => parse_record(line@) is None,
            },
    {
        let len = line.len();
        let asked = len >= 2 && line[0] == 'x' && line[1] == '_';
        let start: usize = if asked {
            2
        } else {
            0
        };
        let bar = find_in(line, start, len, '|');
        let ghost body = line@.subrange(start as int, len as int);
        assert(body == if asked {
            line@.skip(2)
        } else {
            line@
        });
        if bar < len {
            let question = string_of(line, start, bar);
            let answer = string_of(line, bar + 1, len);
            assert(question@ == body.take(bar - start));
            assert(answer@ == body.skip(bar - start + 1));
            Some((asked, Question { question, answer }))
        } else {
            None
        }
    }
}

} // verus!
