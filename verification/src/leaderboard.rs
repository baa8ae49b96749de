//! The leaderboard: the score of each player, by name, and the text of the
//! file that records it.

use vstd::prelude::*;
use vstd::string::StringExecFns;
use crate::decimal::{
    decimal, lemma_decimal_chars, lemma_parse_decimal, parse_i32, push_decimal, read_i32,
};
use crate::error::Error;
use crate::ranking::{
    above, descending, is_ranking, lemma_above_asymmetric, lemma_above_total,
    lemma_insert_descending, lemma_ranking_unique, ranking, stands_above, PlayerView,
};
use crate::text::{
    chars_of, find, find_in, free_of, join, lemma_find_first, lemma_find_is, lemma_split_free,
    lemma_split_join, push_joined, rows, split, split_at, string_of, texts,
};

verus! {

/// A player of the leaderboard.
#[derive(Debug, Clone, PartialEq, Eq)]
pub struct LeaderBoardPlayer {
    pub score: i32,
    pub name: String,
}

impl View for LeaderBoardPlayer {
    type V = PlayerView;

    open spec fn view(&self) -> PlayerView {
        PlayerView { name: self.name@, score: self.score as int }
    }
}

/// The line that records a player: the name, a space, and the score in
/// decimal notation.
pub open spec fn entry(p: PlayerView) -> Seq<char> {
    p.name + seq![' '] + decimal(p.score)
}

impl LeaderBoardPlayer {
    /// The line that records this player in the leaderboard file.
    pub fn to_string(&self) -> (line: String)
        ensures
            line@ == entry(self@),
    {
        let mut line = String::new();
        line.append(self.name.as_str());
        line.push(' ');
        push_decimal(&mut line, self.score);
        line
    }
}

/// The lines that record the players of a list.
pub open spec fn entries(order: Seq<PlayerView>) -> Seq<Seq<char>> {
    order.map_values(|p: PlayerView| entry(p))
}

/// The text of the leaderboard file for a list of players: their entries,
/// with a line break between two of them.
pub open spec fn board_text(order: Seq<PlayerView>) -> Seq<char> {
    join(entries(order), '\n')
}

/// The players at the given places of `ps`, in the order of the places.
pub open spec fn picked(ps: Seq<PlayerView>, places: Seq<usize>) -> Seq<PlayerView> {
    places.map_values(|at: usize| ps[at as int])
}

/// What a sequence of players holds.
pub open spec fn players(ps: Seq<LeaderBoardPlayer>) -> Seq<PlayerView> {
    ps.map_values(|p: LeaderBoardPlayer| p@)
}

/// The scores by name after the players were entered one after the other, a
/// later player taking the place of an earlier one of the same name.
pub open spec fn board_of(ps: Seq<PlayerView>) -> Map<Seq<char>, int>
    decreases ps.len(),
{
    if ps.len() == 0 {
        Map::empty()
    } else {
        board_of(ps.drop_last()).insert(ps.last().name, ps.last().score)
    }
}

/// True when no two of the players have the same name.
pub open spec fn distinct_names(ps: Seq<PlayerView>) -> bool {
    forall|i: int, j: int|
        0 <= i < j < ps.len() ==> (#[trigger] ps[i]).name != (#[trigger] ps[j]).name
}

/// The board of players with distinct names holds exactly their names, each
/// with the score of its player.
pub proof fn lemma_board_of(ps: Seq<PlayerView>)
    requires
        distinct_names(ps),
    ensures
        forall|i: int|
            0 <= i < ps.len() ==> board_of(ps).contains_pair((#[trigger] ps[i]).name, ps[i].score),
        forall|name: Seq<char>| #[trigger]
            board_of(ps).contains_key(name) ==> exists|i: int|
                0 <= i < ps.len() && (#[trigger] ps[i]).name == name,
        board_of(ps).dom().finite(),
    decreases ps.len(),
{
    if ps.len() > 0 {
        let init = ps.drop_last();
        lemma_board_of(init);
        assert forall|i: int| 0 <= i < ps.len() implies board_of(ps).contains_pair(
            (#[trigger] ps[i]).name,
            ps[i].score,
        ) by {
            if i < ps.len() - 1 {
                assert(init[i] == ps[i]);
            }
        }
        assert forall|name: Seq<char>| #[trigger]
            board_of(ps).contains_key(name) implies exists|i: int|
            0 <= i < ps.len() && (#[trigger] ps[i]).name == name by {
            if name == ps.last().name {
                assert(ps[ps.len() - 1].name == name);
            } else {
                let i = choose|i: int| 0 <= i < init.len() && (#[trigger] init[i]).name == name;
                assert(ps[i].name == name);
            }
        }
    }
}

/// The player that a line records: the name is what stands before the first
/// space and is not empty, the score is all that stands behind that space and
/// is an integer in the range of `i32`. Any other line records nothing.
pub open spec fn parse_entry(line: Seq<char>) -> Option<PlayerView> {
    let space = find(line, ' ') as int;
    if 0 < space < line.len() {
        match parse_i32(line.skip(space + 1)) {
            Some(score) => Some(PlayerView { name: line.take(space), score: score as int }),
            None => None,
        }
    } else {
        None
    }
}

/// The board after one more line of the file: an empty line changes nothing,
/// an entry sets the score of its player, and any other line is an error.
pub open spec fn enter_line(board: Map<Seq<char>, int>, line: Seq<char>) -> Option<
    Map<Seq<char>, int>,
> {
    if line.len() == 0 {
        Some(board)
    } else {
        match parse_entry(line) {
            Some(p) => Some(board.insert(p.name, p.score)),
            None => None,
        }
    }
}

/// The board after a sequence of lines, or `None` where one of them is an
/// error.
pub open spec fn enter(board: Map<Seq<char>, int>, lines: Seq<Seq<char>>) -> Option<
    Map<Seq<char>, int>,
>
    decreases lines.len(),
{
    if lines.len() == 0 {
        Some(board)
    } else {
        match enter(board, lines.drop_last()) {
            Some(before) => enter_line(before, lines.last()),
            None => None,
        }
    }
}

/// The board that the text of a leaderboard file records.
pub open spec fn parse_board(text: Seq<char>) -> Option<Map<Seq<char>, int>> {
    enter(Map::empty(), split(text, '\n'))
}

/// Reading lines one part after the other is reading them all.
pub proof fn lemma_enter_concat(
    board: Map<Seq<char>, int>,
    first: Seq<Seq<char>>,
    then: Seq<Seq<char>>,
)
    ensures
        enter(board, first + then) == match enter(board, first) {
            Some(mid) => enter(mid, then),
            None => None,
        },
    decreases then.len(),
{
    if then.len() == 0 {
        assert(first + then == first);
    } else {
        assert((first + then).drop_last() == first + then.drop_last());
        lemma_enter_concat(board, first, then.drop_last());
    }
}

/// The board after a player was entered: a new name gets the score zero, a
/// name that the board holds keeps its score.
pub open spec fn entered(board: Map<Seq<char>, int>, name: Seq<char>) -> Map<Seq<char>, int> {
    if board.contains_key(name) {
        board
    } else {
        board.insert(name, 0)
    }
}

/// The board after `delta` was added to the score of a player.
pub open spec fn credited(board: Map<Seq<char>, int>, name: Seq<char>, delta: int) -> Map<
    Seq<char>,
    int,
> {
    board.insert(name, board[name] + delta)
}

/// Lines are refused exactly where one of them is not empty and is no
/// entry.
pub proof fn lemma_enter_refused(board: Map<Seq<char>, int>, lines: Seq<Seq<char>>)
    ensures
        enter(board, lines) is None <==> exists|i: int|
            0 <= i < lines.len() && (#[trigger] lines[i]).len() > 0 && parse_entry(lines[i])
                is None,
    decreases lines.len(),
{
    if lines.len() > 0 {
        let init = lines.drop_last();
        lemma_enter_refused(board, init);
        if enter(board, lines) is None {
            if enter(board, init) is None {
                let i = choose|i: int|
                    0 <= i < init.len() && (#[trigger] init[i]).len() > 0 && parse_entry(init[i])
                        is None;
            } else {
                assert(lines[lines.len() - 1].len() > 0);
            }
        } else {
            assert forall|i: int| 0 <= i < lines.len() && (#[trigger] lines[i]).len() > 0
                implies parse_entry(lines[i]) is Some by {
                if i < init.len() {
                    assert(init[i] == lines[i]);
                }
            }
        }
    }
}

/// The text of a leaderboard is refused exactly where one of its lines is
/// not empty and is no entry: it holds no space, or nothing before its first
/// space, or no integer in the range of `i32` behind it.
pub proof fn lemma_board_refused(text: Seq<char>)
    ensures
        parse_board(text) is None <==> exists|i: int|
            0 <= i < split(text, '\n').len() && (#[trigger] split(text, '\n')[i]).len() > 0
                && parse_entry(split(text, '\n')[i]) is None,
{
    lemma_enter_refused(Map::empty(), split(text, '\n'));
}

/// The scores of the players, by name.
#[derive(Debug, Clone)]
pub struct LeaderBoard {
    players: Vec<LeaderBoardPlayer>,
}

impl View for LeaderBoard {
    type V = Map<Seq<char>, int>;

    closed spec fn view(&self) -> Map<Seq<char>, int> {
        board_of(players(self.players@))
    }
}

impl LeaderBoard {
    /// The invariant of the type: no two players have the same name.
    pub closed spec fn wf(&self) -> bool {
        distinct_names(players(self.players@))
    }

    /// A leaderboard without players.
    pub fn new() -> (board: LeaderBoard)
        ensures
            board.wf(),
            board@ == Map::<Seq<char>, int>::empty(),
    {
        LeaderBoard { players: Vec::new() }
    }

    /// Where the player of the given name stands in the vector.
    fn position(&self, name: &String) -> (at: Option<usize>)
        requires
            self.wf(),
        ensures
            match at {
                Some(i) => i < self.players.len() && self.players[i as int].name@ == name@,
                None => forall|i: int|
                    0 <= i < self.players.len() ==> self.players[i].name@ != name@,
            },
    {
        let mut i: usize = 0;
        while i < self.players.len()
            invariant
                i <= self.players.len(),
                forall|j: int| 0 <= j < i ==> self.players[j].name@ != name@,
            decreases self.players.len() - i,
        {
            if self.players[i].name == *name {
                return Some(i);
            }
            i += 1;
        }
        None
    }

    /// Sets the score of the player of the given name, who is entered if the
    /// leaderboard does not hold that name yet.
    fn put(&mut self, name: String, score: i32)
        requires
            old(self).wf(),
        ensures
            final(self).wf(),
            final(self)@ == old(self)@.insert(name@, score as int),
    {
        let ghost before = players(self.players@);
        match self.position(&name) {
            Some(i) => {
                self.players[i].score = score;
                proof {
                    let after = players(self.players@);
                    assert(after == before.update(
                        i as int,
                        PlayerView { name: name@, score: score as int },
                    ));
                    lemma_board_update(before, i as int, score as int);
                }
            },
            None => {
                let player = LeaderBoardPlayer { score, name };
                proof {
                    let after = players(self.players@.push(player));
                    assert(after == before.push(player@));
                    assert(after.drop_last() == before);
                    assert forall|i: int, j: int| 0 <= i < j < after.len() implies (
                    #[trigger] after[i]).name != (#[trigger] after[j]).name by {
                        if j < before.len() {
                            assert(after[j] == before[j]);
                        }
                    }
                }
                self.players.push(player);
            },
        }
    }

    /// Reads the leaderboard from the text of its file. Fails where a line
    /// that is not empty is no entry. Of two entries with one name the later
    /// one counts.
    pub fn load(content: &str) -> (loaded: Result<LeaderBoard, Error>)
        ensures
            match loaded {
                Ok(board) => board.wf() && parse_board(content@) == Some(board@),
                Err(e) => e == Error::MalformedLeaderboard && parse_board(content@) is None,
            },
    {
        let chars = chars_of(content);
        let lines = split_at(&chars, '\n');
        let ghost all = rows(lines@);
        let mut board = LeaderBoard::new();
        let mut i: usize = 0;
        while i < lines.len()
            invariant
                i <= lines.len(),
                all == rows(lines@),
                all == split(content@, '\n'),
                board.wf(),
                enter(Map::empty(), all.take(i as int)) == Some(board@),
            decreases lines.len() - i,
        {
            let line = &lines[i];
            let len = line.len();
            proof {
                let next = all.take(i + 1);
                assert(next.drop_last() == all.take(i as int));
                assert(all == next + all.skip(i + 1));
                lemma_enter_concat(Map::empty(), next, all.skip(i + 1));
            }
            if len > 0 {
                let space = find_in(line, 0, len, ' ');
                assert(line@.subrange(0, len as int) == line@);
                if space == 0 || space == len {
                    return Err(Error::MalformedLeaderboard);
                }
                match read_i32(line, space + 1, len) {
                    Some(score) => {
                        let name = string_of(line, 0, space);
                        board.put(name, score);
                    },
                    None => {
                        return Err(Error::MalformedLeaderboard);
                    },
                }
            }
            i += 1;
        }
        assert(all.take(lines.len() as int) == all);
        Ok(board)
    }

    /// The names of the players as character vectors, in the order of the
    /// vector of players.
    fn names(&self) -> (names: Vec<Vec<char>>)
        ensures
            names.len() == self.players.len(),
            forall|i: int| 0 <= i < names.len() ==> (#[trigger] names[i])@ == self.players[i].name@,
    {
        let mut names: Vec<Vec<char>> = Vec::new();
        let mut i: usize = 0;
        while i < self.players.len()
            invariant
                i <= self.players.len(),
                names.len() == i,
                forall|j: int| 0 <= j < i ==> (#[trigger] names[j])@ == self.players[j].name@,
            decreases self.players.len() - i,
        {
            names.push(chars_of(self.players[i].name.as_str()));
            i += 1;
        }
        names
    }

    /// The places of the players in the vector, from the player that the
    /// leaderboard lists first to the one that it lists last.
    fn rank(&self) -> (places: Vec<usize>)
        requires
            self.wf(),
        ensures
            forall|k: int| 0 <= k < places.len() ==> (#[trigger] places[k]) < self.players.len(),
            is_ranking(picked(players(self.players@), places@), self@),
    {
        let names = self.names();
        let ghost ps = players(self.players@);
        let n = self.players.len();
        let mut places: Vec<usize> = Vec::new();
        let mut i: usize = 0;
        while i < n
            invariant
                i <= n,
                n == self.players.len(),
                names.len() == n,
                forall|j: int| 0 <= j < n ==> (#[trigger] names[j])@ == self.players[j].name@,
                ps == players(self.players@),
                distinct_names(ps),
                forall|k: int| 0 <= k < places.len() ==> (#[trigger] places[k]) < i,
                forall|j: usize| j < i ==> #[trigger] places@.contains(j),
                descending(picked(ps, places@)),
            decreases n - i,
        {
            let ghost order = picked(ps, places@);
            let mut at: usize = 0;
            while at < places.len() && stands_above(
                self.players[places[at]].score,
                &names[places[at]],
                self.players[i].score,
                &names[i],
            )
                invariant
                    at <= places.len(),
                    i < n,
                    n == self.players.len(),
                    names.len() == n,
                    forall|j: int| 0 <= j < n ==> (#[trigger] names[j])@ == self.players[j].name@,
                    ps == players(self.players@),
                    order == picked(ps, places@),
                    forall|k: int| 0 <= k < places.len() ==> (#[trigger] places[k]) < i,
                    forall|k: int| 0 <= k < at ==> above(#[trigger] order[k], ps[i as int]),
                decreases places.len() - at,
            {
                at += 1;
            }
            proof {
                if at < places.len() {
                    lemma_above_total(ps[i as int], order[at as int]);
                }
                lemma_insert_descending(order, at as int, ps[i as int]);
                assert(picked(ps, places@.insert(at as int, i)) == order.insert(
                    at as int,
                    ps[i as int],
                ));
                let longer = places@.insert(at as int, i);
                assert forall|j: usize| j < i + 1 implies #[trigger] longer.contains(j) by {
                    if j == i {
                        assert(longer[at as int] == i);
                    } else {
                        assert(places@.contains(j));
                        let k = choose|k: int| 0 <= k < places.len() && places[k] == j;
                        if k < at {
                            assert(longer[k] == j);
                        } else {
                            assert(longer[k + 1] == j);
                        }
                    }
                }
                assert forall|k: int| 0 <= k < longer.len() implies (#[trigger] longer[k]) < i
                    + 1 by {
                    if k < at {
                        assert(longer[k] == places[k]);
                    } else if k > at {
                        assert(longer[k] == places[k - 1]);
                    }
                }
            }
            places.insert(at, i);
            i += 1;
        }
        proof {
            let order = picked(ps, places@);
            lemma_board_of(ps);
            assert forall|k: int| 0 <= k < order.len() implies self@.contains_pair(
                (#[trigger] order[k]).name,
                order[k].score,
            ) by {
                assert(order[k] == ps[places[k] as int]);
            }
            assert forall|name: Seq<char>| #[trigger]
                self@.contains_key(name) implies exists|k: int|
                0 <= k < order.len() && (#[trigger] order[k]).name == name by {
                let j = choose|j: int| 0 <= j < ps.len() && (#[trigger] ps[j]).name == name;
                assert(places@.contains(j as usize));
                let k = choose|k: int| 0 <= k < places.len() && places[k] == j as usize;
                assert(order[k] == ps[j]);
            }
        }
        places
    }

    /// The text of the leaderboard file: one entry for each player, from the
    /// highest score to the lowest, players with one score from the last
    /// name to the first, and a line break between two entries.
    pub fn to_string(&self) -> (text: String)
        requires
            self.wf(),
        ensures
            is_ranking(ranking(self@), self@),
            text@ == board_text(ranking(self@)),
    {
        let places = self.rank();
        let ghost order = picked(players(self.players@), places@);
        proof {
            lemma_ranking_unique(order, order, self@);
        }
        let mut lines: Vec<String> = Vec::new();
        let mut k: usize = 0;
        while k < places.len()
            invariant
                k <= places.len(),
                forall|j: int|
                    0 <= j < places.len() ==> (#[trigger] places[j]) < self.players.len(),
                order == picked(players(self.players@), places@),
                texts(lines@) == entries(order).take(k as int),
            decreases places.len() - k,
        {
            let line = self.players[places[k]].to_string();
            proof {
                assert(texts(lines@.push(line)) == texts(lines@).push(line@));
            }
            lines.push(line);
            k += 1;
        }
        assert(entries(order).take(places.len() as int) == entries(order));
        let mut text = String::new();
        push_joined(&mut text, &lines, '\n');
        text
    }

    /// The score of the player of the given name, if there is one.
    pub fn score(&self, name: &str) -> (score: Option<i32>)
        requires
            self.wf(),
        ensures
            score == if self@.contains_key(name@) { Some(self@[name@] as i32) } else { None },
            self@.contains_key(name@) ==> i32::MIN <= self@[name@] <= i32::MAX,
    {
        let owned = String::from_str(name);
        proof {
            lemma_board_of(players(self.players@));
        }
        match self.position(&owned) {
            Some(i) => {
                assert(players(self.players@)[i as int].name == name@);
                Some(self.players[i].score)
            },
            None => {
                None
            },
        }
    }

    /// True when the leaderboard holds a player of the given name.
    pub fn contains(&self, name: &str) -> (held: bool)
        requires
            self.wf(),
        ensures
            held == self@.contains_key(name@),
    {
        self.score(name).is_some()
    }

    /// Enters the player with a score of zero, unless the leaderboard holds a
    /// player of that name already.
    pub fn ensure_player(&mut self, name: &str)
        requires
            old(self).wf(),
        ensures
            final(self).wf(),
            final(self)@ == entered(old(self)@, name@),
    {
        let owned = String::from_str(name);
        proof {
            lemma_board_of(players(self.players@));
        }
        let at = self.position(&owned);
        if at.is_none() {
            let player = LeaderBoardPlayer { score: 0, name: owned };
            proof {
                let before = players(self.players@);
                let after = players(self.players@.push(player));
                assert(after == before.push(player@));
                assert(after.drop_last() == before);
                assert forall|i: int, j: int| 0 <= i < j < after.len() implies (
                #[trigger] after[i]).name != (#[trigger] after[j]).name by {
                    if j < before.len() {
                        assert(after[j] == before[j]);
                    }
                }
            }
            self.players.push(player);
        } else {
            assert(players(self.players@)[at.unwrap() as int].name == name@);
        }
    }

    /// Adds `delta` to the score of the player of the given name. Fails, and
    /// changes nothing, where the leaderboard holds no such player.
    pub fn add_score(&mut self, name: &str, delta: i32) -> (done: Result<(), Error>)
        requires
            old(self).wf(),
            old(self)@.contains_key(name@) ==> i32::MIN <= old(self)@[name@] + delta <= i32::MAX,
        ensures
            final(self).wf(),
            match done {
                Ok(()) => {
                    &&& old(self)@.contains_key(name@)
                    &&& final(self)@ == credited(old(self)@, name@, delta as int)
                },
                Err(e) => {
                    &&& e == Error::UnknownPlayer
                    &&& !old(self)@.contains_key(name@)
                    &&& final(self)@ == old(self)@
                },
            },
    {
        let owned = String::from_str(name);
        proof {
            lemma_board_of(players(self.players@));
        }
        match self.position(&owned) {
            Some(i) => {
                let ghost before = players(self.players@);
                assert(before[i as int].name == name@);
                let score = self.players[i].score + delta;
                self.players[i].score = score;
                proof {
                    let after = players(self.players@);
                    assert(after == before.update(
                        i as int,
                        PlayerView { name: name@, score: score as int },
                    ));
                    lemma_board_update(before, i as int, score as int);
                }
                Ok(())
            },
            None => Err(Error::UnknownPlayer),
        }
    }
}

/// Changing the score of one of the players changes that score on the board.
pub proof fn lemma_board_update(ps: Seq<PlayerView>, at: int, score: int)
    requires
        distinct_names(ps),
        0 <= at < ps.len(),
    ensures
        distinct_names(ps.update(at, PlayerView { name: ps[at].name, score })),
        board_of(ps.update(at, PlayerView { name: ps[at].name, score })) == board_of(ps).insert(
            ps[at].name,
            score,
        ),
{
    let changed = ps.update(at, PlayerView { name: ps[at].name, score });
    assert forall|i: int, j: int| 0 <= i < j < changed.len() implies (
    #[trigger] changed[i]).name != (#[trigger] changed[j]).name by {
        assert(changed[i].name == ps[i].name);
        assert(changed[j].name == ps[j].name);
    }
    lemma_board_of(ps);
    lemma_board_of(changed);
    let a = board_of(changed);
    let b = board_of(ps).insert(ps[at].name, score);
    assert forall|name: Seq<char>| a.contains_key(name) <==> b.contains_key(name) by {
        if a.contains_key(name) {
            let i = choose|i: int| 0 <= i < changed.len() && (#[trigger] changed[i]).name == name;
            assert(ps[i].name == name);
        }
        if b.contains_key(name) {
            let i = if name == ps[at].name {
                at
            } else {
                choose|i: int| 0 <= i < ps.len() && (#[trigger] ps[i]).name == name
            };
            assert(changed[i].name == name);
        }
    }
    assert forall|name: Seq<char>| a.contains_key(name) implies a[name] == b[name] by {
        let i = choose|i: int| 0 <= i < changed.len() && (#[trigger] changed[i]).name == name;
        if i != at {
            assert(changed[i] == ps[i]);
            assert(board_of(ps).contains_pair(ps[i].name, ps[i].score));
            assert(ps[i].name != ps[at].name);
        } else {
            assert(changed[at].name == ps[at].name);
        }
    }
}

/// True when the entry of `p` can be read back: the name is not empty and
/// holds neither a space nor a line break, and the score is in the range of
/// `i32`.
pub open spec fn enterable(p: PlayerView) -> bool {
    &&& p.name.len() > 0
    &&& free_of(p.name, ' ')
    &&& free_of(p.name, '\n')
    &&& i32::MIN <= p.score <= i32::MAX
}

/// True when every player of the board is enterable.
pub open spec fn all_enterable(board: Map<Seq<char>, int>) -> bool {
    forall|name: Seq<char>| #[trigger]
        board.contains_key(name) ==> enterable(PlayerView { name, score: board[name] })
}

/// The player that a line without a line break records is enterable.
pub proof fn lemma_parsed_entry(line: Seq<char>)
    requires
        free_of(line, '\n'),
    ensures
        parse_entry(line) matches Some(p) ==> enterable(p),
{
    lemma_find_first(line, ' ');
    let space = find(line, ' ') as int;
    if 0 < space < line.len() {
        let name = line.take(space);
        assert forall|i: int| 0 <= i < name.len() implies name[i] != ' ' && name[i] != '\n' by {
            assert(name[i] == line[i]);
        }
    }
}

/// Reading lines without line breaks into a board of enterable players
/// gives a board of enterable players.
pub proof fn lemma_enter_enterable(board: Map<Seq<char>, int>, lines: Seq<Seq<char>>)
    requires
        all_enterable(board),
        forall|i: int| 0 <= i < lines.len() ==> free_of(#[trigger] lines[i], '\n'),
    ensures
        enter(board, lines) matches Some(read) ==> all_enterable(read),
    decreases lines.len(),
{
    if lines.len() > 0 {
        let init = lines.drop_last();
        assert forall|i: int| 0 <= i < init.len() implies free_of(#[trigger] init[i], '\n') by {
            assert(init[i] == lines[i]);
        }
        lemma_enter_enterable(board, init);
        lemma_parsed_entry(lines.last());
    }
}

/// The board that a text records holds enterable players only: what was
/// read from a leaderboard file can be written and read again.
pub proof fn lemma_parsed_board(text: Seq<char>)
    ensures
        parse_board(text) matches Some(board) ==> all_enterable(board),
{
    lemma_split_free(text, '\n');
    lemma_enter_enterable(Map::empty(), split(text, '\n'));
}

/// The entry of an enterable player is one line that is not empty and that
/// reads as the player.
pub proof fn lemma_entry_parses(p: PlayerView)
    requires
        enterable(p),
    ensures
        entry(p).len() > 0,
        free_of(entry(p), '\n'),
        parse_entry(entry(p)) == Some(p),
{
    let line = entry(p);
    let at = p.name.len() as int;
    lemma_decimal_chars(p.score);
    lemma_parse_decimal(p.score);
    assert forall|j: int| 0 <= j < at implies line[j] != ' ' by {
        assert(line[j] == p.name[j]);
    }
    lemma_find_is(line, ' ', at);
    assert(line.take(at) == p.name);
    assert(line.skip(at + 1) == decimal(p.score));
    assert forall|j: int| 0 <= j < line.len() implies line[j] != '\n' by {
        if j < at {
            assert(line[j] == p.name[j]);
        } else if j > at {
            assert(line[j] == decimal(p.score)[j - at - 1]);
        }
    }
}

/// Reading the entries of enterable players enters the players one after
/// the other.
pub proof fn lemma_enter_entries(order: Seq<PlayerView>)
    requires
        forall|i: int| 0 <= i < order.len() ==> enterable(#[trigger] order[i]),
    ensures
        enter(Map::empty(), entries(order)) == Some(board_of(order)),
    decreases order.len(),
{
    if order.len() > 0 {
        let init = order.drop_last();
        lemma_enter_entries(init);
        assert(entries(order).drop_last() == entries(init));
        lemma_entry_parses(order.last());
    }
}

/// Writing the list of the players of a board and reading the text gives
/// the same board, where every player is enterable.
pub proof fn lemma_board_round_trip(board: Map<Seq<char>, int>, order: Seq<PlayerView>)
    requires
        is_ranking(order, board),
        all_enterable(board),
    ensures
        parse_board(board_text(order)) == Some(board),
{
    let lines = entries(order);
    assert forall|i: int| 0 <= i < order.len() implies enterable(#[trigger] order[i]) by {
        assert(board.contains_key(order[i].name));
        assert(order[i] == PlayerView { name: order[i].name, score: board[order[i].name] });
    }
    assert forall|i: int, j: int| 0 <= i < j < order.len() implies (#[trigger] order[i]).name != (
    #[trigger] order[j]).name by {
        lemma_above_asymmetric(order[i], order[j]);
        if order[i].name == order[j].name {
            assert(order[i] == order[j]);
        }
    }
    lemma_board_of(order);
    assert(board_of(order) =~= board) by {
        assert forall|name: Seq<char>| board.contains_key(name) implies board_of(
            order,
        ).contains_pair(name, board[name]) by {
            let i = choose|i: int| 0 <= i < order.len() && (#[trigger] order[i]).name == name;
            assert(board_of(order).contains_pair(order[i].name, order[i].score));
        }
        assert forall|name: Seq<char>|
            board_of(order).contains_key(name) implies board.contains_key(name) by {
            let i = choose|i: int| 0 <= i < order.len() && (#[trigger] order[i]).name == name;
            assert(board.contains_pair(order[i].name, order[i].score));
        }
    }
    lemma_enter_entries(order);
    if order.len() == 0 {
        let empty = Seq::<char>::empty();
        assert(enter(Map::empty(), seq![empty]) == Some(Map::<Seq<char>, int>::empty())) by {
            reveal_with_fuel(enter, 2);
        }
    } else {
        assert forall|i: int| 0 <= i < lines.len() implies free_of(#[trigger] lines[i], '\n') by {
            lemma_entry_parses(order[i]);
        }
        lemma_split_join(lines, '\n');
    }
}

} // verus!
