//! The order in which the leaderboard lists its players: the higher score
//! first and, of two players with one score, the later name first.

use vstd::prelude::*;
use crate::order::{
    before, comes_before, lemma_before_asymmetric, lemma_before_total, lemma_before_transitive,
};

verus! {

/// What a player is: a name and a score.
pub struct PlayerView {
    pub name: Seq<char>,
    pub score: int,
}

/// True when `p` is listed above `q`: `p` has the higher score, or the same
/// score and the name that comes later.
pub open spec fn above(p: PlayerView, q: PlayerView) -> bool {
    p.score > q.score || (p.score == q.score && before(q.name, p.name))
}

/// True when each player is listed above all that follow.
pub open spec fn descending(order: Seq<PlayerView>) -> bool {
    forall|i: int, j: int|
        0 <= i < j < order.len() ==> above(#[trigger] order[i], #[trigger] order[j])
}

/// True when `order` lists the players of `board`: each listed player has
/// the score that the board gives the name, each name of the board is
/// listed, and the list is descending, so that no name is listed twice.
pub open spec fn is_ranking(order: Seq<PlayerView>, board: Map<Seq<char>, int>) -> bool {
    &&& forall|i: int|
        0 <= i < order.len() ==> board.contains_pair((#[trigger] order[i]).name, order[i].score)
    &&& forall|name: Seq<char>| #[trigger]
        board.contains_key(name) ==> exists|i: int|
            0 <= i < order.len() && (#[trigger] order[i]).name == name
    &&& descending(order)
}

/// The list of the players of a board, where the board has one: a finite
/// board has exactly one.
pub open spec fn ranking(board: Map<Seq<char>, int>) -> Seq<PlayerView> {
    choose|order: Seq<PlayerView>| is_ranking(order, board)
}

/// No player is listed above itself, and of two players at most one is
/// listed above the other.
pub proof fn lemma_above_asymmetric(p: PlayerView, q: PlayerView)
    ensures
        !(above(p, q) && above(q, p)),
        !above(p, p),
{
    lemma_before_asymmetric(p.name, q.name);
    lemma_before_asymmetric(p.name, p.name);
}

/// Of two players with different names one is listed above the other.
pub proof fn lemma_above_total(p: PlayerView, q: PlayerView)
    requires
        p.name != q.name,
    ensures
        above(p, q) || above(q, p),
{
    lemma_before_total(p.name, q.name);
}

/// A player listed above another is listed above all that the other is
/// listed above.
pub proof fn lemma_above_transitive(p: PlayerView, q: PlayerView, r: PlayerView)
    requires
        above(p, q),
        above(q, r),
    ensures
        above(p, r),
{
    if p.score == q.score && q.score == r.score {
        lemma_before_transitive(r.name, q.name, p.name);
    }
}

/// Two descending lists of the same players are the same list.
pub proof fn lemma_descending_unique(a: Seq<PlayerView>, b: Seq<PlayerView>)
    requires
        descending(a),
        descending(b),
        forall|i: int| 0 <= i < a.len() ==> b.contains(#[trigger] a[i]),
        forall|j: int| 0 <= j < b.len() ==> a.contains(#[trigger] b[j]),
    ensures
        a == b,
    decreases a.len(),
{
    if a.len() == 0 {
        if b.len() > 0 {
            assert(a.contains(b[0]));
        }
    } else {
        let j = choose|j: int| 0 <= j < b.len() && b[j] == a[0];
        let i = choose|i: int| 0 <= i < a.len() && a[i] == b[0];
        lemma_above_asymmetric(a[0], b[0]);
        let ra = a.skip(1);
        let rb = b.skip(1);
        assert forall|i: int| 0 <= i < ra.len() implies rb.contains(#[trigger] ra[i]) by {
            let j = choose|j: int| 0 <= j < b.len() && b[j] == a[i + 1];
            lemma_above_asymmetric(a[0], a[i + 1]);
            assert(rb[j - 1] == b[j]);
        }
        assert forall|j: int| 0 <= j < rb.len() implies ra.contains(#[trigger] rb[j]) by {
            let i = choose|i: int| 0 <= i < a.len() && a[i] == b[j + 1];
            lemma_above_asymmetric(b[0], b[j + 1]);
            assert(ra[i - 1] == a[i]);
        }
        assert forall|i: int, j: int| 0 <= i < j < ra.len() implies above(
            #[trigger] ra[i],
            #[trigger] ra[j],
        ) by {
            assert(ra[i] == a[i + 1] && ra[j] == a[j + 1]);
        }
        assert forall|i: int, j: int| 0 <= i < j < rb.len() implies above(
            #[trigger] rb[i],
            #[trigger] rb[j],
        ) by {
            assert(rb[i] == b[i + 1] && rb[j] == b[j + 1]);
        }
        lemma_descending_unique(ra, rb);
        assert(a == seq![a[0]] + ra);
    }
}

/// A board has at most one list of its players.
pub proof fn lemma_ranking_unique(
    a: Seq<PlayerView>,
    b: Seq<PlayerView>,
    board: Map<Seq<char>, int>,
)
    requires
        is_ranking(a, board),
        is_ranking(b, board),
    ensures
        a == b,
        ranking(board) == a,
{
    lemma_ranking_same(a, b, board);
    lemma_ranking_same(a, ranking(board), board);
}

/// Two lists of the players of one board are the same list.
proof fn lemma_ranking_same(a: Seq<PlayerView>, b: Seq<PlayerView>, board: Map<Seq<char>, int>)
    requires
        is_ranking(a, board),
        is_ranking(b, board),
    ensures
        a == b,
{
    assert forall|i: int| 0 <= i < a.len() implies b.contains(#[trigger] a[i]) by {
        let j = choose|j: int| 0 <= j < b.len() && (#[trigger] b[j]).name == a[i].name;
        assert(b[j] == a[i]);
    }
    assert forall|j: int| 0 <= j < b.len() implies a.contains(#[trigger] b[j]) by {
        let i = choose|i: int| 0 <= i < a.len() && (#[trigger] a[i]).name == b[j].name;
        assert(a[i] == b[j]);
    }
    lemma_descending_unique(a, b);
}

/// A player put into a descending list, below all that are listed above it
/// and above the first that is not, leaves the list descending.
pub proof fn lemma_insert_descending(order: Seq<PlayerView>, at: int, p: PlayerView)
    requires
        descending(order),
        0 <= at <= order.len(),
        forall|i: int| 0 <= i < at ==> above(#[trigger] order[i], p),
        at < order.len() ==> above(p, order[at]),
    ensures
        descending(order.insert(at, p)),
{
    let longer = order.insert(at, p);
    assert forall|i: int, j: int| 0 <= i < j < longer.len() implies above(
        #[trigger] longer[i],
        #[trigger] longer[j],
    ) by {
        if j < at {
            assert(longer[i] == order[i] && longer[j] == order[j]);
        } else if j == at {
            assert(longer[i] == order[i]);
        } else if i == at {
            if j - 1 > at {
                lemma_above_transitive(p, order[at], order[j - 1]);
            }
        } else if i < at {
            assert(longer[i] == order[i] && longer[j] == order[j - 1]);
        } else {
            assert(longer[i] == order[i - 1] && longer[j] == order[j - 1]);
        }
    }
}

/// Decides whether the player of the first score and name is listed above
/// the player of the second.
pub fn stands_above(score: i32, name: &Vec<char>, other_score: i32, other_name: &Vec<char>) -> (r:
    bool)
    ensures
        r == above(
            PlayerView { name: name@, score: score as int },
            PlayerView { name: other_name@, score: other_score as int },
        ),
{
    score > other_score || (score == other_score && comes_before(other_name, name))
}

} // verus!
