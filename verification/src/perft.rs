//! Perft: counting the leaves of the tree of legal moves to a given depth.
use crate::board::Board;
use crate::chess_move::Move;
use crate::movegen::AttackTables;
use crate::movegen::legality::lemma_generated_plays;
use crate::movegen::pseudo::{lemma_moves_fit, MAX_MOVES};
use crate::piece::{Color, BK, WHITE, WK};
use crate::position::{lemma_king_stays, lemma_make_sound, piece_of, Position};
use crate::square::{square_name, Square};
use vstd::prelude::*;

verus! {

/// The count that the first `n` pseudo-legal moves of the side to move contribute to the
/// perft of `p` at `depth`: a position counts one at depth zero; deeper, each move that does
/// not leave the mover's king attacked counts what the position after it counts one ply
/// less deep. `None` where a side that is to move in the tree has no king.
pub open spec fn nodes_over(p: Position, n: nat, depth: nat) -> Option<nat>
    decreases depth, n,
{
    if depth == 0 {
        Some(1)
    } else if p.squares_of(piece_of(p.side, WK)) == 0 {
        None
    } else if n == 0 {
        Some(0)
    } else {
        let rest = nodes_over(p, (n - 1) as nat, depth);
        let q = p.make(p.pseudo_legal(p.side)[n - 1]);
        let here = if q.in_check(p.side) {
            Some(0nat)
        } else {
            nodes_over(q, q.pseudo_legal(q.side).len(), (depth - 1) as nat)
        };
        if rest is Some && here is Some {
            Some(rest.unwrap() + here.unwrap())
        } else {
            None
        }
    }
}

/// The perft of `p` at `depth`: the number of sequences of `depth` legal moves from `p`.
pub open spec fn nodes(p: Position, depth: nat) -> Option<nat> {
    nodes_over(p, p.pseudo_legal(p.side).len(), depth)
}

/// What the move `m` contributes to the perft of `p` at `depth`, at least one: nothing if
/// it leaves the mover's king attacked, else the perft of the position after it one ply
/// less deep.
pub open spec fn nodes_after(p: Position, m: Move, depth: nat) -> Option<nat> {
    let q = p.make(m);
    if q.in_check(p.side) {
        Some(0nat)
    } else {
        nodes(q, (depth - 1) as nat)
    }
}

/// The perft over one more move is the perft over the moves before plus what that move
/// contributes.
proof fn lemma_nodes_step(p: Position, n: nat, depth: nat)
    requires
        depth > 0,
        n > 0,
        p.squares_of(piece_of(p.side, WK)) != 0,
    ensures
        nodes_over(p, n, depth) == {
            let rest = nodes_over(p, (n - 1) as nat, depth);
            let here = nodes_after(p, p.pseudo_legal(p.side)[n - 1], depth);
            if rest is Some && here is Some {
                Some(rest.unwrap() + here.unwrap())
            } else {
                None
            }
        },
        nodes_over(p, 0, depth) == Some(0nat),
{
}

/// How the list grows with one more move: by nothing for a move that leaves the mover's
/// king attacked, else by the name of the move and the count `found` for it; where there
/// is no such count, or none that fits the machine word, the longer list cannot be
/// returned.
proof fn lemma_divided_step(
    p: Position,
    n: nat,
    depth: nat,
    legal: bool,
    found: Option<usize>,
    list: Seq<(String, usize)>,
    name: String,
)
    requires
        n > 0,
        depth > 0,
        p.squares_of(piece_of(p.side, WK)) != 0,
        listed(list, divided_over(p, (n - 1) as nat, depth)),
        legal == !p.make(p.pseudo_legal(p.side)[n - 1]).in_check(p.side),
        name@ == move_name(p.pseudo_legal(p.side)[n - 1]),
        match found {
            Some(k) => nodes_after(p, p.pseudo_legal(p.side)[n - 1], depth) == Some(k as nat),
            None => uncountable(nodes_after(p, p.pseudo_legal(p.side)[n - 1], depth)),
        },
    ensures
        !legal ==> listed(list, divided_over(p, n, depth)),
        legal && found is Some ==> listed(
            list.push((name, found.unwrap())),
            divided_over(p, n, depth),
        ),
        legal && found is None ==> unlistable(divided_over(p, n, depth)),
{
    reveal(listed);
    reveal(unlistable);
    let before = divided_over(p, (n - 1) as nat, depth);
    let now = divided_over(p, n, depth);
    if legal {
        match found {
            Some(k) => {
                lemma_listed_push(
                    list,
                    (name, k),
                    before,
                    (move_name(p.pseudo_legal(p.side)[n - 1]), k as nat),
                );
            },
            None => {
                if now is Some {
                    assert(now.unwrap()[now.unwrap().len() - 1].1 > usize::MAX);
                }
            },
        }
    }
}

/// An empty list holds the divided perft over no moves.
proof fn lemma_divided_start(p: Position, depth: nat, list: Seq<(String, usize)>)
    requires
        p.squares_of(piece_of(p.side, WK)) != 0,
        list.len() == 0,
    ensures
        listed(list, divided_over(p, 0, depth)),
{
    reveal(listed);
}

/// Whether a count cannot be returned: there is none, or it exceeds the machine word.
pub open spec fn uncountable(count: Option<nat>) -> bool {
    count is None || count.unwrap() > usize::MAX
}

/// Once the first moves cannot be counted, more moves cannot either.
proof fn lemma_uncountable_stays(p: Position, a: nat, b: nat, depth: nat)
    requires
        a <= b,
        depth > 0,
        uncountable(nodes_over(p, a, depth)),
    ensures
        uncountable(nodes_over(p, b, depth)),
    decreases b - a,
{
    if a < b {
        lemma_uncountable_stays(p, a, (b - 1) as nat, depth);
    }
}

/// The per-move counts that the first `n` pseudo-legal moves of the side to move
/// contribute to the divided perft of `p` at `depth`: for each move that does not leave the
/// mover's king attacked, its name and the perft of the position after it one ply less
/// deep.
pub open spec fn divided_over(p: Position, n: nat, depth: nat) -> Option<Seq<(Seq<char>, nat)>>
    decreases n,
{
    if p.squares_of(piece_of(p.side, WK)) == 0 {
        None
    } else if n == 0 {
        Some(Seq::empty())
    } else {
        let rest = divided_over(p, (n - 1) as nat, depth);
        let m = p.pseudo_legal(p.side)[n - 1];
        let q = p.make(m);
        if rest is None {
            None
        } else if q.in_check(p.side) {
            rest
        } else {
            let here = nodes(q, (depth - 1) as nat);
            if here is Some {
                Some(rest.unwrap().push((move_name(m), here.unwrap())))
            } else {
                None
            }
        }
    }
}

/// The divided perft of `p` at `depth`.
pub open spec fn divided(p: Position, depth: nat) -> Option<Seq<(Seq<char>, nat)>> {
    divided_over(p, p.pseudo_legal(p.side).len(), depth)
}

/// The names of the two squares of a move.
pub open spec fn move_name(m: Move) -> Seq<char> {
    square_name(Square(m.from_ix() as u8)) + square_name(Square(m.to_ix() as u8))
}

/// Whether the divided perft cannot be returned: there is none, or one of its counts
/// exceeds the machine word.
#[verifier::opaque]
pub open spec fn unlistable(list: Option<Seq<(Seq<char>, nat)>>) -> bool {
    list is None || exists|i: int| 0 <= i < list.unwrap().len() && list.unwrap()[i].1 > usize::MAX
}

/// Once the first moves cannot be listed, more moves cannot either.
proof fn lemma_unlistable_stays(p: Position, a: nat, b: nat, depth: nat)
    requires
        a <= b,
        unlistable(divided_over(p, a, depth)),
    ensures
        unlistable(divided_over(p, b, depth)),
    decreases b - a,
{
    reveal(unlistable);
    if a < b {
        lemma_unlistable_stays(p, a, (b - 1) as nat, depth);
        let before = divided_over(p, (b - 1) as nat, depth);
        let now = divided_over(p, b, depth);
        if before is Some && now is Some {
            let i = choose|i: int|
                0 <= i < before.unwrap().len() && before.unwrap()[i].1 > usize::MAX;
            assert(now.unwrap()[i].1 > usize::MAX);
        }
    }
}

/// A buffer for the moves of each ply of a search.
fn new_pool(depth: u8) -> (pool: Vec<Vec<Move>>)
    ensures
        pool@.len() == depth,
        forall|i: int| 0 <= i < pool@.len() ==> (#[trigger] pool@[i])@.len() == MAX_MOVES,
{
    let mut pool: Vec<Vec<Move>> = Vec::new();
    let mut n: u8 = 0;
    while n < depth
        invariant
            n <= depth,
            pool@.len() == n,
            forall|i: int| 0 <= i < pool@.len() ==> (#[trigger] pool@[i])@.len() == MAX_MOVES,
        decreases depth - n,
    {
        pool.push(vec![Move(0); MAX_MOVES]);
        n += 1;
    }
    pool
}

/// Counts the leaves of the tree of legal moves below `board` at exactly `depth` plies; at
/// depth zero that is the position itself. The board is the same after the call as before.
/// At a depth above zero the count fails for a board that is not sound, where a side that
/// is to move in the tree has no king, and where the count exceeds the machine word.
pub fn run(depth: u8, board: &mut Board, tables: &AttackTables) -> (r: Result<usize, &'static str>)
    requires
        old(board).wf(),
        tables.wf(),
    ensures
        final(board).wf(),
        final(board)@ == old(board)@,
        match r {
            Ok(n) => (depth == 0 || old(board)@.sound()) && nodes(old(board)@, depth as nat)
                == Some(n as nat),
            Err(_) => depth > 0 && (!old(board)@.sound() || uncountable(
                nodes(old(board)@, depth as nat),
            )),
        },
{
    if depth == 0 {
        return Ok(1);
    }
    if !board.is_sound() {
        return Err("Invalid position for perft");
    }
    let color = board.color_to_move;
    let mut pool = new_pool(depth);
    match run_depth(depth, board, tables, color, &mut pool) {
        Some(n) => Ok(n),
        None => Err("Invalid position for perft"),
    }
}

/// For each legal move of the side to move, in the order of generation, the name of the
/// move and the perft of the position after it at `depth - 1` plies. The board is the same
/// after the call as before. Fails as `run` does.
pub fn run_divided(depth: u8, board: &mut Board, tables: &AttackTables) -> (r: Result<
    Vec<(String, usize)>,
    &'static str,
>)
    requires
        old(board).wf(),
        tables.wf(),
        depth >= 1,
    ensures
        final(board).wf(),
        final(board)@ == old(board)@,
        match r {
            Ok(list) => old(board)@.sound() && listed(list@, divided(old(board)@, depth as nat)),
            Err(_) => !old(board)@.sound() || unlistable(divided(old(board)@, depth as nat)),
        },
{
    if !board.is_sound() {
        return Err("Invalid position for perft");
    }
    let mut pool = new_pool(depth);
    match list_depth(depth, board, tables, &mut pool) {
        Some(list) => Ok(list),
        None => Err("Invalid position for perft"),
    }
}

/// Takes a buffer from `pool` and fills it with the pseudo-legal moves of the side to
/// move; `None`, and the pool as it was, if that side has no king.
fn moves_of(board: &Board, tables: &AttackTables, pool: &mut Vec<Vec<Move>>) -> (r: Option<
    (Vec<Move>, usize),
>)
    requires
        board.wf(),
        tables.wf(),
        old(pool)@.len() >= 1,
        forall|i: int| 0 <= i < old(pool)@.len() ==> (#[trigger] old(pool)@[i])@.len() == MAX_MOVES,
    ensures
        forall|i: int|
            0 <= i < final(pool)@.len() ==> (#[trigger] final(pool)@[i])@.len() == MAX_MOVES,
        match r {
            Some((moves, count)) => {
                &&& board@.squares_of(piece_of(board@.side, WK)) != 0
                &&& final(pool)@.len() == old(pool)@.len() - 1
                &&& moves@.len() == MAX_MOVES
                &&& count == board@.pseudo_legal(board@.side).len()
                &&& count <= MAX_MOVES
                &&& forall|k: int|
                    0 <= k < count ==> moves@[k] == board@.pseudo_legal(board@.side)[k]
            },
            None => board@.squares_of(piece_of(board@.side, WK)) == 0 && final(pool)@.len() == old(
                pool,
            )@.len(),
        },
{
    proof {
        board.lemma_piece_sets();
    }
    let king = if board.color_to_move.0 == WHITE {
        WK
    } else {
        BK
    };
    if board.pieces[king as usize].is_empty() {
        return None;
    }
    let mut moves = pool.pop().unwrap();
    proof {
        lemma_moves_fit(board@, board@.side);
    }
    let count = board.get_moves(tables, moves.as_mut_slice());
    Some((moves, count))
}

/// The divided perft of a sound board, with a buffer from `pool` for each ply; `None` where
/// it cannot be listed.
fn list_depth(depth: u8, board: &mut Board, tables: &AttackTables, pool: &mut Vec<Vec<Move>>) -> (r:
    Option<Vec<(String, usize)>>)
    requires
        old(board).wf(),
        old(board)@.sound(),
        tables.wf(),
        depth >= 1,
        old(pool)@.len() >= depth,
        forall|i: int| 0 <= i < old(pool)@.len() ==> (#[trigger] old(pool)@[i])@.len() == MAX_MOVES,
    ensures
        final(board).wf(),
        final(board)@ == old(board)@,
        match r {
            Some(list) => listed(list@, divided(old(board)@, depth as nat)),
            None => unlistable(divided(old(board)@, depth as nat)),
        },
{
    let ghost p = board@;
    let color = board.color_to_move;
    let ghost size = pool@.len();
    let ghost all = p.pseudo_legal(color);
    let (moves, moves_count) = match moves_of(board, tables, pool) {
        Some(found) => found,
        None => {
            proof {
                reveal(unlistable);
            }
            return None;
        },
    };
    let mut result: Vec<(String, usize)> = Vec::new();
    let mut failed = false;
    let mut i: usize = 0;
    proof {
        lemma_divided_start(p, depth as nat, result@);
    }
    while i < moves_count && !failed
        invariant
            board.wf(),
            board@ == p,
            p.sound(),
            tables.wf(),
            color == p.side,
            p.squares_of(piece_of(color, WK)) != 0,
            depth >= 1,
            all == p.pseudo_legal(color),
            moves_count == all.len(),
            moves_count <= MAX_MOVES,
            moves@.len() == MAX_MOVES,
            forall|k: int| 0 <= k < moves_count ==> moves@[k] == all[k],
            i <= moves_count,
            pool@.len() == size - 1,
            size >= depth,
            forall|k: int| 0 <= k < pool@.len() ==> (#[trigger] pool@[k])@.len() == MAX_MOVES,
            !failed ==> listed(result@, divided_over(p, i as nat, depth as nat)),
            failed ==> unlistable(divided_over(p, moves_count as nat, depth as nat)),
        decreases moves_count - i,
    {
        let m = moves[i];
        proof {
            assert(all[i as int] == m);
        }
        let (legal, count) = count_after(depth, board, tables, &m, color, pool);
        let name = m.as_string();
        proof {
            lemma_divided_step(p, (i + 1) as nat, depth as nat, legal, count, result@, name);
        }
        if legal {
            match count {
                Some(n) => {
                    result.push((name, n));
                },
                None => {
                    failed = true;
                    proof {
                        lemma_unlistable_stays(
                            p,
                            (i + 1) as nat,
                            moves_count as nat,
                            depth as nat,
                        );
                    }
                },
            }
        }
        i += 1;
    }
    if failed {
        None
    } else {
        Some(result)
    }
}

/// Whether `list` holds the entries of the divided perft `d`.
#[verifier::opaque]
pub open spec fn listed(list: Seq<(String, usize)>, d: Option<Seq<(Seq<char>, nat)>>) -> bool {
    &&& d is Some
    &&& list.len() == d.unwrap().len()
    &&& forall|i: int|
        0 <= i < list.len() ==> (#[trigger] list[i]).0@ == d.unwrap()[i].0 && list[i].1
            == d.unwrap()[i].1
}

/// A list with one more entry holds a divided perft with that entry added.
proof fn lemma_listed_push(
    list: Seq<(String, usize)>,
    item: (String, usize),
    d: Option<Seq<(Seq<char>, nat)>>,
    e: (Seq<char>, nat),
)
    requires
        listed(list, d),
        item.0@ == e.0,
        item.1 == e.1,
    ensures
        d is Some,
        listed(list.push(item), Some(d.unwrap().push(e))),
{
    reveal(listed);
    let longer = list.push(item);
    let target = d.unwrap().push(e);
    assert forall|i: int| 0 <= i < longer.len() implies (#[trigger] longer[i]).0@ == target[i].0
        && longer[i].1 == target[i].1 by {
        if i < list.len() {
            assert(longer[i] == list[i]);
        }
    }
}

/// Makes the move `m`, the `depth`-th ply from the leaves, tells whether it is legal, counts
/// the leaves below it if it is, and takes it back.
fn count_after(
    depth: u8,
    board: &mut Board,
    tables: &AttackTables,
    m: &Move,
    color: Color,
    pool: &mut Vec<Vec<Move>>,
) -> (r: (bool, Option<usize>))
    requires
        depth >= 1,
        old(board).wf(),
        old(board)@.sound(),
        tables.wf(),
        color == old(board).color_to_move,
        old(board)@.pseudo_legal(color).contains(*m),
        old(board)@.squares_of(piece_of(color, WK)) != 0,
        old(pool)@.len() >= depth - 1,
        forall|i: int| 0 <= i < old(pool)@.len() ==> (#[trigger] old(pool)@[i])@.len() == MAX_MOVES,
    ensures
        final(board).wf(),
        final(board)@ == old(board)@,
        final(pool)@.len() == old(pool)@.len(),
        forall|i: int|
            0 <= i < final(pool)@.len() ==> (#[trigger] final(pool)@[i])@.len() == MAX_MOVES,
        r.0 == !old(board)@.make(*m).in_check(color),
        match r.1 {
            Some(n) => nodes_after(old(board)@, *m, depth as nat) == Some(n as nat),
            None => uncountable(nodes_after(old(board)@, *m, depth as nat)),
        },
    decreases depth, 0int,
{
    let ghost p = board@;
    proof {
        lemma_generated_plays(p, *m);
        lemma_make_sound(p, *m);
        lemma_king_stays(p, *m);
    }
    board.make_move(m);
    let legal = !board.is_king_in_check(tables, color);
    let count = if legal {
        run_depth(depth - 1, board, tables, color.enemy(), pool)
    } else {
        Some(0)
    };
    proof {
        assert(board@.results_from(p, *m));
    }
    board.undo_move(m);
    (legal, count)
}

/// Counts the leaves below `board` at `depth` plies with a buffer from `pool` for each
/// ply; `None` where they cannot be counted.
fn run_depth(
    depth: u8,
    board: &mut Board,
    tables: &AttackTables,
    color: Color,
    pool: &mut Vec<Vec<Move>>,
) -> (r: Option<usize>)
    requires
        old(board).wf(),
        old(board)@.sound(),
        tables.wf(),
        color == old(board).color_to_move,
        old(pool)@.len() >= depth,
        forall|i: int| 0 <= i < old(pool)@.len() ==> (#[trigger] old(pool)@[i])@.len() == MAX_MOVES,
    ensures
        final(board).wf(),
        final(board)@ == old(board)@,
        final(pool)@.len() == old(pool)@.len(),
        forall|i: int|
            0 <= i < final(pool)@.len() ==> (#[trigger] final(pool)@[i])@.len() == MAX_MOVES,
        match r {
            Some(n) => nodes(old(board)@, depth as nat) == Some(n as nat),
            None => uncountable(nodes(old(board)@, depth as nat)),
        },
    decreases depth, 1int,
{
    if depth == 0 {
        return Some(1);
    }
    let ghost p = board@;
    let ghost size = pool@.len();
    let ghost all = p.pseudo_legal(color);
    let (moves, moves_count) = match moves_of(board, tables, pool) {
        Some(found) => found,
        None => {
            return None;
        },
    };
    let mut count: usize = 0;
    let mut failed = false;
    let mut i: usize = 0;
    proof {
        lemma_nodes_step(p, 1, depth as nat);
    }
    while i < moves_count && !failed
        invariant
            board.wf(),
            board@ == p,
            p.sound(),
            tables.wf(),
            color == p.side,
            p.squares_of(piece_of(color, WK)) != 0,
            depth >= 1,
            all == p.pseudo_legal(color),
            moves_count == all.len(),
            moves_count <= MAX_MOVES,
            moves@.len() == MAX_MOVES,
            forall|k: int| 0 <= k < moves_count ==> moves@[k] == all[k],
            i <= moves_count,
            pool@.len() == size - 1,
            size >= depth,
            forall|k: int| 0 <= k < pool@.len() ==> (#[trigger] pool@[k])@.len() == MAX_MOVES,
            !failed ==> nodes_over(p, i as nat, depth as nat) == Some(count as nat),
            failed ==> uncountable(nodes_over(p, moves_count as nat, depth as nat)),
        decreases moves_count - i,
    {
        let m = moves[i];
        proof {
            assert(all[i as int] == m);
            lemma_nodes_step(p, (i + 1) as nat, depth as nat);
        }
        let (legal, here) = count_after(depth, board, tables, &m, color, pool);
        match here {
            Some(n) => {
                match count.checked_add(n) {
                    Some(sum) => {
                        count = sum;
                    },
                    None => {
                        failed = true;
                    },
                }
            },
            None => {
                failed = true;
            },
        }
        proof {
            if failed {
                lemma_uncountable_stays(p, (i + 1) as nat, moves_count as nat, depth as nat);
            }
        }
        i += 1;
    }
    pool.push(moves);
    if failed {
        None
    } else {
        Some(count)
    }
}

} // verus!
