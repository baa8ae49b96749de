//! The two pools of the question bank: the questions still to be asked and
//! those that were asked, with the text of the bank file that records them.

use vstd::prelude::*;
use crate::error::Error;
use crate::question::{marked, parse_record, record, Question, QuestionView};
use crate::random::random_below;
use crate::text::{
    chars_of, find, free_of, join, lemma_find_first, lemma_find_is, lemma_split_concat,
    lemma_split_free, lemma_split_join, push_joined, rows, split, split_at, texts,
};

verus! {

/// The questions of a bank, each in one of two pools.
#[derive(Debug, Clone, PartialEq, Eq)]
pub struct QuestionPools {
    /// The questions not asked yet, in the order of the file.
    pub unused: Vec<Question>,
    /// The questions that were asked, in the order in which they were drawn.
    pub used: Vec<Question>,
}

/// What the pools hold.
pub struct PoolsView {
    pub unused: Seq<QuestionView>,
    pub used: Seq<QuestionView>,
}

/// What a sequence of questions holds.
pub open spec fn questions(qs: Seq<Question>) -> Seq<QuestionView> {
    qs.map_values(|q: Question| q@)
}

impl View for QuestionPools {
    type V = PoolsView;

    open spec fn view(&self) -> PoolsView {
        PoolsView { unused: questions(self.unused@), used: questions(self.used@) }
    }
}

/// Two empty pools.
pub open spec fn no_questions() -> PoolsView {
    PoolsView { unused: Seq::empty(), used: Seq::empty() }
}

/// The pools after one more line of the file: an empty line changes nothing,
/// a record adds its question at the end of the pool that its mark names, and
/// any other line is an error.
pub open spec fn absorb_line(pools: PoolsView, line: Seq<char>) -> Option<PoolsView> {
    if line.len() == 0 {
        Some(pools)
    } else {
        match parse_record(line) {
            Some((asked, q)) => Some(
                if asked {
                    PoolsView { unused: pools.unused, used: pools.used.push(q) }
                } else {
                    PoolsView { unused: pools.unused.push(q), used: pools.used }
                },
            ),
            None => None,
        }
    }
}

/// The pools after a sequence of lines, or `None` where one of them is an
/// error.
pub open spec fn absorb(pools: PoolsView, lines: Seq<Seq<char>>) -> Option<PoolsView>
    decreases lines.len(),
{
    if lines.len() == 0 {
        Some(pools)
    } else {
        match absorb(pools, lines.drop_last()) {
            Some(before) => absorb_line(before, lines.last()),
            None => None,
        }
    }
}

/// The pools that the text of a bank file records.
pub open spec fn parse_bank(text: Seq<char>) -> Option<PoolsView> {
    absorb(no_questions(), split(text, '\n'))
}

/// The lines that record the questions of one pool.
pub open spec fn records(qs: Seq<QuestionView>, asked: bool) -> Seq<Seq<char>> {
    qs.map_values(|q: QuestionView| record(q, asked))
}

/// The text of the bank file: the records of the unused questions, a line
/// break, and the records of the used ones. Within each part a line break
/// stands between two records, so a part without questions is empty.
pub open spec fn bank_text(pools: PoolsView) -> Seq<char> {
    join(records(pools.unused, false), '\n') + seq!['\n'] + join(records(pools.used, true), '\n')
}

/// Reading lines one part after the other is reading them all.
pub proof fn lemma_absorb_concat(pools: PoolsView, first: Seq<Seq<char>>, then: Seq<Seq<char>>)
    ensures
        absorb(pools, first + then) == match absorb(pools, first) {
            Some(mid) => absorb(mid, then),
            None => None,
        },
    decreases then.len(),
{
    if then.len() == 0 {
        assert(first + then == first);
    } else {
        assert((first + then).drop_last() == first + then.drop_last());
        lemma_absorb_concat(pools, first, then.drop_last());
    }
}

/// The lines that record `qs`, one for each question.
fn record_lines(qs: &Vec<Question>, asked: bool) -> (lines: Vec<String>)
    ensures
        texts(lines@) == records(questions(qs@), asked),
{
    let mut lines: Vec<String> = Vec::new();
    let mut i: usize = 0;
    while i < qs.len()
        invariant
            i <= qs.len(),
            texts(lines@) == records(questions(qs@), asked).take(i as int),
        decreases qs.len() - i,
    {
        let line = qs[i].to_string(asked);
        assert(texts(lines@.push(line)) == texts(lines@).push(line@));
        lines.push(line);
        i += 1;
    }
    lines
}

impl QuestionPools {
    /// Two empty pools.
    pub fn new() -> (pools: QuestionPools)
        ensures
            pools@ == no_questions(),
    {
        let pools = QuestionPools { unused: Vec::new(), used: Vec::new() };
        assert(pools@.unused == Seq::<QuestionView>::empty());
        pools
    }

    /// Reads the pools from the text of a bank file. Fails where a line that
    /// is not empty holds no bar.
    pub fn load(content: &str) -> (loaded: Result<QuestionPools, Error>)
        ensures
            match loaded {
                Ok(pools) => parse_bank(content@) == Some(pools@),
                Err(e) => e == Error::MalformedBank && parse_bank(content@) is None,
            },
    {
        let chars = chars_of(content);
        let lines = split_at(&chars, '\n');
        let ghost all = rows(lines@);
        let mut pools = QuestionPools::new();
        let mut i: usize = 0;
        while i < lines.len()
            invariant
                i <= lines.len(),
                all == rows(lines@),
                all == split(content@, '\n'),
                absorb(no_questions(), all.take(i as int)) == Some(pools@),
            decreases lines.len() - i,
        {
            let line = &lines[i];
            proof {
                let next = all.take(i + 1);
                assert(next.drop_last() == all.take(i as int));
            }
            if line.len() > 0 {
                match Question::parse(line) {
                    Some((asked, q)) => {
                        if asked {
                            assert(questions(pools.used@.push(q)) == questions(pools.used@).push(
                                q@,
                            ));
                            pools.used.push(q);
                        } else {
                            assert(questions(pools.unused@.push(q)) == questions(
                                pools.unused@,
                            ).push(q@));
                            pools.unused.push(q);
                        }
                    },
                    None => {
                        proof {
                            assert(all == all.take(i + 1) + all.skip(i + 1));
                            lemma_absorb_concat(no_questions(), all.take(i + 1), all.skip(i + 1));
                        }
                        return Err(Error::MalformedBank);
                    },
                }
            }
            i += 1;
        }
        assert(all.take(lines.len() as int) == all);
        Ok(pools)
    }

    /// The text of the bank file that records these pools.
    pub fn to_string(&self) -> (text: String)
        ensures
            text@ == bank_text(self@),
    {
        let unused = record_lines(&self.unused, false);
        let used = record_lines(&self.used, true);
        let mut text = String::new();
        push_joined(&mut text, &unused, '\n');
        text.push('\n');
        push_joined(&mut text, &used, '\n');
        text
    }

    /// Takes the unused question at `index` out of its pool. The questions
    /// behind it move up by one place.
    pub fn take(&mut self, index: usize) -> (q: Question)
        requires
            index < old(self).unused.len(),
        ensures
            q@ == old(self)@.unused[index as int],
            final(self)@.unused == old(self)@.unused.remove(index as int),
            final(self)@.used == old(self)@.used,
    {
        let q = self.unused.remove(index);
        q
    }

    /// Takes an unused question, picked at random, out of its pool.
    pub fn draw_random(&mut self) -> (q: Question)
        requires
            old(self).unused.len() > 0,
        ensures
            exists|index: int|
                0 <= index < old(self)@.unused.len() && q@ == old(self)@.unused[index]
                    && final(self)@.unused == old(self)@.unused.remove(index),
            final(self)@.used == old(self)@.used,
    {
        let index = random_below(self.unused.len());
        self.take(index)
    }

    /// Puts a question that was asked at the end of the used pool.
    pub fn mark_used(&mut self, q: Question)
        ensures
            final(self)@.unused == old(self)@.unused,
            final(self)@.used == old(self)@.used.push(q@),
    {
        self.used.push(q);
    }
}

/// True when the record of `q` can be told from any other line: the text
/// holds no bar, neither text nor answer holds a line break, and the text of
/// a question that was not asked does not start with the mark `x_`.
pub open spec fn recordable(q: QuestionView, asked: bool) -> bool {
    &&& free_of(q.text, '|')
    &&& free_of(q.text, '\n')
    &&& free_of(q.answer, '\n')
    &&& asked || !marked(q.text)
}

/// True when every question of both pools is recordable.
pub open spec fn all_recordable(pools: PoolsView) -> bool {
    &&& forall|i: int| 0 <= i < pools.unused.len() ==> recordable(#[trigger] pools.unused[i], false)
    &&& forall|i: int| 0 <= i < pools.used.len() ==> recordable(#[trigger] pools.used[i], true)
}

/// The pools with `qs` added at the end of the pool that `asked` names.
pub open spec fn extended(pools: PoolsView, qs: Seq<QuestionView>, asked: bool) -> PoolsView {
    if asked {
        PoolsView { unused: pools.unused, used: pools.used + qs }
    } else {
        PoolsView { unused: pools.unused + qs, used: pools.used }
    }
}

/// The record of a recordable question is one line that is not empty and
/// that reads as the question, with its mark.
pub proof fn lemma_record_parses(q: QuestionView, asked: bool)
    requires
        recordable(q, asked),
    ensures
        record(q, asked).len() > 0,
        free_of(record(q, asked), '\n'),
        parse_record(record(q, asked)) == Some((asked, q)),
{
    let line = record(q, asked);
    let body = q.text + seq!['|'] + q.answer;
    if asked {
        assert(line.skip(2) == body);
    } else {
        if q.text.len() >= 2 {
            assert(line[0] == q.text[0] && line[1] == q.text[1]);
        } else if q.text.len() == 1 {
            assert(line[1] == '|');
        } else {
            assert(line[0] == '|');
        }
    }
    assert forall|j: int| 0 <= j < q.text.len() implies body[j] != '|' by {
        assert(body[j] == q.text[j]);
    }
    lemma_find_is(body, '|', q.text.len() as int);
    assert(body.take(q.text.len() as int) == q.text);
    assert(body.skip(q.text.len() as int + 1) == q.answer);
}

/// Reading the records of recordable questions adds the questions, in their
/// order, to the pool of their mark.
pub proof fn lemma_absorb_records(pools: PoolsView, qs: Seq<QuestionView>, asked: bool)
    requires
        forall|i: int| 0 <= i < qs.len() ==> recordable(#[trigger] qs[i], asked),
    ensures
        absorb(pools, records(qs, asked)) == Some(extended(pools, qs, asked)),
    decreases qs.len(),
{
    let lines = records(qs, asked);
    if qs.len() == 0 {
        assert(pools.unused + qs == pools.unused);
        assert(pools.used + qs == pools.used);
    } else {
        let init = qs.drop_last();
        lemma_absorb_records(pools, init, asked);
        assert(lines.drop_last() == records(init, asked));
        lemma_record_parses(qs.last(), asked);
        assert(pools.unused + qs == (pools.unused + init).push(qs.last()));
        assert(pools.used + qs == (pools.used + init).push(qs.last()));
    }
}

/// The lines of one part of the bank text: the records of its questions, or
/// one empty line where it has none. Reading them adds the questions.
proof fn lemma_part(pools: PoolsView, qs: Seq<QuestionView>, asked: bool)
    requires
        forall|i: int| 0 <= i < qs.len() ==> recordable(#[trigger] qs[i], asked),
    ensures
        absorb(pools, split(join(records(qs, asked), '\n'), '\n')) == Some(
            extended(pools, qs, asked),
        ),
{
    let lines = records(qs, asked);
    if qs.len() == 0 {
        let empty = Seq::<char>::empty();
        assert(absorb(pools, seq![empty]) == absorb_line(pools, empty)) by {
            reveal_with_fuel(absorb, 2);
        }
    } else {
        assert forall|i: int| 0 <= i < lines.len() implies free_of(#[trigger] lines[i], '\n') by {
            lemma_record_parses(qs[i], asked);
        }
        lemma_split_join(lines, '\n');
        lemma_absorb_records(pools, qs, asked);
    }
}

/// Writing pools of recordable questions and reading the text gives the same
/// pools: the same questions, in the same order, each in its pool.
pub proof fn lemma_bank_round_trip(pools: PoolsView)
    requires
        all_recordable(pools),
    ensures
        parse_bank(bank_text(pools)) == Some(pools),
{
    let first = join(records(pools.unused, false), '\n');
    let second = join(records(pools.used, true), '\n');
    lemma_split_concat(first, second, '\n');
    lemma_absorb_concat(no_questions(), split(first, '\n'), split(second, '\n'));
    lemma_part(no_questions(), pools.unused, false);
    let mid = extended(no_questions(), pools.unused, false);
    lemma_part(mid, pools.used, true);
}

/// What a line without a line break records is recordable.
pub proof fn lemma_parsed_record(line: Seq<char>)
    requires
        free_of(line, '\n'),
    ensures
        parse_record(line) matches Some((asked, q)) ==> recordable(q, asked),
{
    let asked = marked(line);
    let body = if asked {
        line.skip(2)
    } else {
        line
    };
    lemma_find_first(body, '|');
    let bar = find(body, '|') as int;
    if bar < body.len() {
        let text = body.take(bar);
        let answer = body.skip(bar + 1);
        assert forall|i: int| 0 <= i < body.len() implies body[i] != '\n' by {
            if asked {
                assert(body[i] == line[i + 2]);
            }
        }
        assert forall|i: int| 0 <= i < text.len() implies text[i] != '|' && text[i] != '\n' by {
            assert(text[i] == body[i]);
        }
        assert forall|i: int| 0 <= i < answer.len() implies answer[i] != '\n' by {
            assert(answer[i] == body[i + bar + 1]);
        }
        if !asked && marked(text) {
            assert(text[0] == line[0] && text[1] == line[1]);
        }
    }
}

/// Reading lines without line breaks into pools of recordable questions
/// gives pools of recordable questions.
pub proof fn lemma_absorb_recordable(pools: PoolsView, lines: Seq<Seq<char>>)
    requires
        all_recordable(pools),
        forall|i: int| 0 <= i < lines.len() ==> free_of(#[trigger] lines[i], '\n'),
    ensures
        absorb(pools, lines) matches Some(read) ==> all_recordable(read),
    decreases lines.len(),
{
    if lines.len() > 0 {
        let init = lines.drop_last();
        assert forall|i: int| 0 <= i < init.len() implies free_of(#[trigger] init[i], '\n') by {
            assert(init[i] == lines[i]);
        }
        lemma_absorb_recordable(pools, init);
        lemma_parsed_record(lines.last());
    }
}

/// The pools that a text records hold recordable questions only: what was
/// read from a bank file can be written and read again.
pub proof fn lemma_parsed_bank(text: Seq<char>)
    ensures
        parse_bank(text) matches Some(pools) ==> all_recordable(pools),
{
    lemma_split_free(text, '\n');
    lemma_absorb_recordable(no_questions(), split(text, '\n'));
}

/// The text of a bank is refused exactly where one of its lines is not empty
/// and records nothing.
pub proof fn lemma_bank_refused(text: Seq<char>)
    ensures
        parse_bank(text) is None <==> exists|i: int|
            0 <= i < split(text, '\n').len() && (#[trigger] split(text, '\n')[i]).len() > 0
                && parse_record(split(text, '\n')[i]) is None,
{
    lemma_absorb_refused(no_questions(), split(text, '\n'));
}

/// Lines are refused exactly where one of them is not empty and records
/// nothing.
pub proof fn lemma_absorb_refused(pools: PoolsView, lines: Seq<Seq<char>>)
    ensures
        absorb(pools, lines) is None <==> exists|i: int|
            0 <= i < lines.len() && (#[trigger] lines[i]).len() > 0 && parse_record(lines[i])
                is None,
    decreases lines.len(),
{
    if lines.len() > 0 {
        let init = lines.drop_last();
        lemma_absorb_refused(pools, init);
        if absorb(pools, lines) is None {
            if absorb(pools, init) is None {
                let i = choose|i: int|
                    0 <= i < init.len() && (#[trigger] init[i]).len() > 0 && parse_record(init[i])
                        is None;
            } else {
                assert(lines[lines.len() - 1].len() > 0);
            }
        } else {
            assert forall|i: int| 0 <= i < lines.len() && (#[trigger] lines[i]).len() > 0
                implies parse_record(lines[i]) is Some by {
                if i < init.len() {
                    assert(init[i] == lines[i]);
                }
            }
        }
    }
}

} // verus!
