use vstd::prelude::*;

use crate::direction::Direction;
use vstd::arithmetic::div_mod::lemma_fundamental_div_mod;
use vstd::arithmetic::div_mod::lemma_fundamental_div_mod_converse;
use vstd::arithmetic::div_mod::lemma_mod_bound;

verus! {

/// Side length of the square board.
pub const PUZZLE_SIZE: usize = 3;

/// Number of cells on the board.
pub const TOTAL_PUZZLE_SIZE: usize = 9;

/// The tile value that stands for the blank cell.
pub const MOVABLE_PIECE: i8 = 8;

/// The canonical ascending arrangement `0, 1, ..., 8`.
pub open spec fn goal_seq() -> Seq<i8> {
    Seq::new(9, |i: int| i as i8)
}

/// Every cell holds a value in `0 .. 9`.
pub open spec fn in_range(s: Seq<i8>) -> bool {
    forall|i: int| 0 <= i < s.len() ==> 0 <= #[trigger] s[i] < 9
}

/// Number of occurrences of `v` in `s`.
pub open spec fn count_val(s: Seq<i8>, v: i8) -> int
    decreases s.len(),
{
    if s.len() == 0 {
        0
    } else {
        count_val(s.drop_last(), v) + (if s.last() == v {
            1int
        } else {
            0int
        })
    }
}

/// A well-formed board state: a permutation of `0 .. 9`, with 8 as the blank.
pub open spec fn valid_state(s: Seq<i8>) -> bool {
    &&& s.len() == 9
    &&& in_range(s)
    &&& forall|v: i8| 0 <= v < 9 ==> #[trigger] count_val(s, v) == 1
}

/// The cell index holding the blank.
pub open spec fn blank_of(s: Seq<i8>) -> int {
    choose|i: int| 0 <= i < s.len() && s[i] == MOVABLE_PIECE
}

pub open spec fn abs_diff(a: int, b: int) -> int {
    if a >= b {
        a - b
    } else {
        b - a
    }
}

/// Manhattan distance of the value `v` sitting at cell `i` from its home cell.
pub open spec fn tile_dist(i: int, v: i8) -> int {
    abs_diff(i / 3, (v as int) / 3) + abs_diff(i % 3, (v as int) % 3)
}

/// Sum of `tile_dist` over the first `n` cells.
pub open spec fn manhattan_prefix(s: Seq<i8>, n: int) -> int
    decreases n,
{
    if n <= 0 {
        0
    } else {
        manhattan_prefix(s, n - 1) + tile_dist(n - 1, s[n - 1])
    }
}

/// The Manhattan-distance heuristic of a whole board.
pub open spec fn spec_manhattan(s: Seq<i8>) -> int {
    manhattan_prefix(s, s.len() as int)
}

/// Whether the blank at cell `b` may move one step in direction `d`
/// without leaving the 3x3 grid.
pub open spec fn move_legal(b: int, d: Direction) -> bool {
    match d {
        Direction::Left => b % 3 >= 1,
        Direction::Right => b % 3 <= 1,
        Direction::Up => b / 3 >= 1,
        Direction::Down => b / 3 <= 1,
    }
}

/// The cell the blank lands on when moved in direction `d` from cell `b`.
pub open spec fn move_target(b: int, d: Direction) -> int {
    match d {
        Direction::Left => b - 1,
        Direction::Right => b + 1,
        Direction::Up => b - 3,
        Direction::Down => b + 3,
    }
}

/// The board after sliding the blank one step in direction `d`,
/// or `None` when the move would leave the grid.
pub open spec fn apply_move(s: Seq<i8>, d: Direction) -> Option<Seq<i8>> {
    let b = blank_of(s);
    if s.len() == 9 && 0 <= b < 9 && s[b] == MOVABLE_PIECE && move_legal(b, d) {
        let m = move_target(b, d);
        Some(s.update(b, s[m]).update(m, MOVABLE_PIECE))
    } else {
        None
    }
}

/// Sequential application of a move list, left to right.
pub open spec fn apply_moves(s: Seq<i8>, ms: Seq<Direction>) -> Option<Seq<i8>>
    decreases ms.len(),
{
    if ms.len() == 0 {
        Some(s)
    } else {
        match apply_move(s, ms[0]) {
            Some(t) => apply_moves(t, ms.subrange(1, ms.len() as int)),
            None => None,
        }
    }
}

/// 1 when the pair of cells `(i, j)` is an inversion among the non-blank tiles.
pub open spec fn inv_pair(s: Seq<i8>, i: int, j: int) -> int {
    if s[i] != MOVABLE_PIECE && s[j] != MOVABLE_PIECE && s[i] > s[j] {
        1
    } else {
        0
    }
}

/// Inversions whose first cell is `i` and second cell lies in `j ..`.
pub open spec fn inv_row(s: Seq<i8>, i: int, j: int) -> int
    decreases s.len() - j,
{
    if 0 <= j < s.len() {
        inv_pair(s, i, j) + inv_row(s, i, j + 1)
    } else {
        0
    }
}

/// Inversions whose first cell lies in `i ..`.
pub open spec fn inv_from(s: Seq<i8>, i: int) -> int
    decreases s.len() - i,
{
    if 0 <= i < s.len() {
        inv_row(s, i, i + 1) + inv_from(s, i + 1)
    } else {
        0
    }
}

/// Number of inversions among the non-blank tiles of `s`.
pub open spec fn inversions(s: Seq<i8>) -> int {
    inv_from(s, 0)
}

pub proof fn lemma_count_take_step(s: Seq<i8>, v: i8, k: int)
    requires
        0 <= k < s.len(),
    ensures
        count_val(s.take(k + 1), v) == count_val(s.take(k), v) + (if s[k] == v {
            1int
        } else {
            0int
        }),
{
    assert(s.take(k + 1).drop_last() =~= s.take(k));
    assert(s.take(k + 1).last() == s[k]);
}

pub proof fn lemma_count_index(s: Seq<i8>, v: i8, i: int)
    requires
        0 <= i < s.len(),
        s[i] == v,
    ensures
        count_val(s, v) >= 1,
    decreases s.len(),
{
    lemma_count_nonneg(s.drop_last(), v);
    if i < s.len() - 1 {
        lemma_count_index(s.drop_last(), v, i);
    }
}

pub proof fn lemma_count_nonneg(s: Seq<i8>, v: i8)
    ensures
        count_val(s, v) >= 0,
    decreases s.len(),
{
    if s.len() > 0 {
        lemma_count_nonneg(s.drop_last(), v);
    }
}

pub proof fn lemma_count_exists(s: Seq<i8>, v: i8)
    requires
        count_val(s, v) >= 1,
    ensures
        exists|i: int| 0 <= i < s.len() && s[i] == v,
    decreases s.len(),
{
    lemma_count_nonneg(s, v);
    if s.last() == v {
        assert(s[s.len() - 1] == v);
    } else {
        lemma_count_exists(s.drop_last(), v);
        let i = choose|i: int| 0 <= i < s.len() - 1 && s.drop_last()[i] == v;
        assert(s[i] == v);
    }
}

pub proof fn lemma_count_two(s: Seq<i8>, v: i8, i: int, j: int)
    requires
        0 <= i < j < s.len(),
        s[i] == v,
        s[j] == v,
    ensures
        count_val(s, v) >= 2,
    decreases s.len(),
{
    if j == s.len() - 1 {
        lemma_count_index(s.drop_last(), v, i);
    } else {
        lemma_count_two(s.drop_last(), v, i, j);
    }
}

pub proof fn lemma_count_zero(s: Seq<i8>, v: i8)
    requires
        forall|i: int| 0 <= i < s.len() ==> #[trigger] s[i] != v,
    ensures
        count_val(s, v) == 0,
    decreases s.len(),
{
    if s.len() > 0 {
        lemma_count_zero(s.drop_last(), v);
        assert(s.last() == s[s.len() - 1]);
    }
}

pub proof fn lemma_count_update(s: Seq<i8>, i: int, x: i8, v: i8)
    requires
        0 <= i < s.len(),
    ensures
        count_val(s.update(i, x), v) == count_val(s, v) - (if s[i] == v {
            1int
        } else {
            0int
        }) + (if x == v {
            1int
        } else {
            0int
        }),
    decreases s.len(),
{
    let t = s.update(i, x);
    if i == s.len() - 1 {
        assert(t.drop_last() =~= s.drop_last());
        assert(t.last() == x);
    } else {
        assert(t.drop_last() =~= s.drop_last().update(i, x));
        lemma_count_update(s.drop_last(), i, x, v);
        assert(t.last() == s.last());
    }
}

/// On a valid board the blank cell index is the unique cell holding 8.
pub proof fn lemma_blank_at(s: Seq<i8>, i: int)
    requires
        valid_state(s),
        0 <= i < s.len(),
        s[i] == MOVABLE_PIECE,
    ensures
        blank_of(s) == i,
{
    assert(count_val(s, MOVABLE_PIECE) == 1);
    assert(exists|k: int| 0 <= k < s.len() && s[k] == MOVABLE_PIECE);
    let b = blank_of(s);
    assert(0 <= b < s.len() && s[b] == MOVABLE_PIECE);
    if b < i {
        lemma_count_two(s, MOVABLE_PIECE, b, i);
    } else if i < b {
        lemma_count_two(s, MOVABLE_PIECE, i, b);
    }
}

pub proof fn lemma_blank_exists(s: Seq<i8>)
    requires
        valid_state(s),
    ensures
        0 <= blank_of(s) < 9,
        s[blank_of(s)] == MOVABLE_PIECE,
{
    assert(count_val(s, MOVABLE_PIECE) == 1);
    lemma_count_exists(s, MOVABLE_PIECE);
    let b = blank_of(s);
    assert(0 <= b < s.len() && s[b] == MOVABLE_PIECE);
}

/// Row/column decomposition of a cell index on the 3x3 grid.
pub proof fn lemma_cell_coords(i: int)
    requires
        0 <= i < 9,
    ensures
        i == 3 * (i / 3) + (i % 3),
        0 <= i % 3 < 3,
        0 <= i / 3 < 3,
{
    lemma_fundamental_div_mod(i, 3);
    lemma_mod_bound(i, 3);
}

/// Coordinates of the target cell of a legal move, relative to the source cell.
pub proof fn lemma_neighbor_coords(b: int, d: Direction)
    requires
        0 <= b < 9,
        move_legal(b, d),
    ensures
        0 <= move_target(b, d) < 9,
        move_target(b, d) != b,
        match d {
            Direction::Left => move_target(b, d) / 3 == b / 3 && move_target(b, d) % 3 == b % 3
                - 1,
            Direction::Right => move_target(b, d) / 3 == b / 3 && move_target(b, d) % 3 == b % 3
                + 1,
            Direction::Up => move_target(b, d) / 3 == b / 3 - 1 && move_target(b, d) % 3 == b % 3,
            Direction::Down => move_target(b, d) / 3 == b / 3 + 1 && move_target(b, d) % 3 == b
                % 3,
        },
{
    lemma_cell_coords(b);
    let m = move_target(b, d);
    match d {
        Direction::Left => {
            lemma_fundamental_div_mod_converse(m, 3, b / 3, b % 3 - 1);
        },
        Direction::Right => {
            lemma_fundamental_div_mod_converse(m, 3, b / 3, b % 3 + 1);
        },
        Direction::Up => {
            lemma_fundamental_div_mod_converse(m, 3, b / 3 - 1, b % 3);
        },
        Direction::Down => {
            lemma_fundamental_div_mod_converse(m, 3, b / 3 + 1, b % 3);
        },
    }
}

/// Moving one cell changes a tile's Manhattan distance by at most 1.
pub proof fn lemma_tile_dist_adjacent(b: int, d: Direction, v: i8)
    requires
        0 <= b < 9,
        move_legal(b, d),
        0 <= v < 9,
    ensures
        abs_diff(tile_dist(b, v), tile_dist(move_target(b, d), v)) <= 1,
{
    lemma_cell_coords(b);
    lemma_neighbor_coords(b, d);
    lemma_cell_coords(v as int);
}

/// The heuristic sum is nonnegative and at most 4 per cell.
pub proof fn lemma_manhattan_prefix_bound(s: Seq<i8>, n: int)
    requires
        in_range(s),
        s.len() == 9,
        0 <= n <= 9,
    ensures
        0 <= manhattan_prefix(s, n) <= 4 * n,
    decreases n,
{
    if n > 0 {
        lemma_manhattan_prefix_bound(s, n - 1);
        lemma_cell_coords(n - 1);
        lemma_cell_coords(s[n - 1] as int);
    }
}

proof fn lemma_manhattan_prefix_zero_iff(s: Seq<i8>, n: int)
    requires
        in_range(s),
        s.len() == 9,
        0 <= n <= 9,
    ensures
        manhattan_prefix(s, n) == 0 <==> forall|i: int| 0 <= i < n ==> (#[trigger] s[i]) as int
            == i,
    decreases n,
{
    if n > 0 {
        lemma_manhattan_prefix_zero_iff(s, n - 1);
        lemma_manhattan_prefix_bound(s, n - 1);
        lemma_cell_coords(n - 1);
        lemma_cell_coords(s[n - 1] as int);
        assert(tile_dist(n - 1, s[n - 1]) == 0 <==> (s[n - 1] as int) == n - 1);
    }
}

/// The heuristic is zero exactly on the goal arrangement.
pub proof fn lemma_manhattan_zero(s: Seq<i8>)
    requires
        in_range(s),
        s.len() == 9,
    ensures
        spec_manhattan(s) == 0 <==> s == goal_seq(),
{
    lemma_manhattan_prefix_zero_iff(s, 9);
    if spec_manhattan(s) == 0 {
        assert(s =~= goal_seq());
    }
    if s == goal_seq() {
        assert(forall|i: int| 0 <= i < 9 ==> (#[trigger] s[i]) as int == i);
    }
}

/// Two boards that differ only at cells `a` and `b` have heuristic sums that
/// differ only in those two cells' contributions.
pub proof fn lemma_manhattan_two_point(s: Seq<i8>, t: Seq<i8>, a: int, b: int, n: int)
    requires
        s.len() == t.len(),
        0 <= a < b < s.len(),
        0 <= n <= s.len(),
        forall|i: int| 0 <= i < s.len() && i != a && i != b ==> s[i] == #[trigger] t[i],
    ensures
        manhattan_prefix(s, n) - manhattan_prefix(t, n) == (if n > a {
            tile_dist(a, s[a]) - tile_dist(a, t[a])
        } else {
            0int
        }) + (if n > b {
            tile_dist(b, s[b]) - tile_dist(b, t[b])
        } else {
            0int
        }),
    decreases n,
{
    if n > 0 {
        lemma_manhattan_two_point(s, t, a, b, n - 1);
    }
}

/// A legal move keeps the board valid and changes the heuristic by at most 2.
pub proof fn lemma_apply_move_preserves(s: Seq<i8>, d: Direction, t: Seq<i8>)
    requires
        valid_state(s),
        apply_move(s, d) == Some(t),
    ensures
        valid_state(t),
        spec_manhattan(s) <= spec_manhattan(t) + 2,
        spec_manhattan(t) <= spec_manhattan(s) + 2,
        t.len() == 9,
{
    let b = blank_of(s);
    let m = move_target(b, d);
    lemma_neighbor_coords(b, d);
    let v = s[m];
    assert(t == s.update(b, v).update(m, MOVABLE_PIECE));
    assert(t.len() == 9);
    // validity: the move permutes two cells, so counts are untouched
    assert forall|w: i8| 0 <= w < 9 implies #[trigger] count_val(t, w) == 1 by {
        let s1 = s.update(b, v);
        lemma_count_update(s, b, v, w);
        lemma_count_update(s1, m, MOVABLE_PIECE, w);
        assert(s1[m] == v);
    }
    assert forall|i: int| 0 <= i < t.len() implies 0 <= #[trigger] t[i] < 9 by {
        if i != b && i != m {
            assert(t[i] == s[i]);
        }
    }
    // heuristic change: only the two swapped cells contribute
    let lo = if b < m {
        b
    } else {
        m
    };
    let hi = if b < m {
        m
    } else {
        b
    };
    lemma_manhattan_two_point(s, t, lo, hi, 9);
    assert(spec_manhattan(s) - spec_manhattan(t) == tile_dist(b, s[b]) - tile_dist(b, t[b])
        + tile_dist(m, s[m]) - tile_dist(m, t[m]));
    lemma_tile_dist_adjacent(b, d, v);
    lemma_tile_dist_adjacent(b, d, MOVABLE_PIECE);
    assert(t[b] == v && t[m] == MOVABLE_PIECE && s[b] == MOVABLE_PIECE);
}

/// A legal move is undone by the opposite move.
pub proof fn lemma_apply_move_reverse(s: Seq<i8>, d: Direction, t: Seq<i8>)
    requires
        valid_state(s),
        apply_move(s, d) == Some(t),
    ensures
        apply_move(t, crate::direction::opposite(d)) == Some(s),
{
    let b = blank_of(s);
    let m = move_target(b, d);
    lemma_neighbor_coords(b, d);
    let v = s[m];
    assert(t == s.update(b, v).update(m, MOVABLE_PIECE));
    lemma_apply_move_preserves(s, d, t);
    assert(t[m] == MOVABLE_PIECE);
    lemma_blank_at(t, m);
    lemma_cell_coords(b);
    lemma_cell_coords(m);
    let o = crate::direction::opposite(d);
    assert(move_legal(m, o));
    assert(move_target(m, o) == b);
    assert(t.update(m, t[b]).update(b, MOVABLE_PIECE) =~= s);
}

/// Splitting the first move off a move list.
pub proof fn lemma_apply_moves_cons(s: Seq<i8>, d: Direction, t: Seq<i8>, ms: Seq<Direction>)
    requires
        apply_move(s, d) == Some(t),
    ensures
        apply_moves(s, seq![d] + ms) == apply_moves(t, ms),
{
    let full = seq![d] + ms;
    assert(full[0] == d);
    assert(full.subrange(1, full.len() as int) =~= ms);
}

/// Every move list that solves a board has at least half the board's
/// Manhattan distance many moves: one move changes the heuristic by at most 2.
/// (The heuristic counts the blank's own displacement, so a single move can
/// lower the sum by 2; the classic one-per-move bound does not hold of it.)
pub proof fn lemma_moves_lower_bound(s: Seq<i8>, ms: Seq<Direction>)
    requires
        valid_state(s),
        apply_moves(s, ms) == Some(goal_seq()),
    ensures
        spec_manhattan(s) <= 2 * ms.len(),
    decreases ms.len(),
{
    if ms.len() == 0 {
        assert(s == goal_seq());
        lemma_manhattan_zero(s);
    } else {
        let step = apply_move(s, ms[0]);
        if step is Some {
            let t = step->Some_0;
            lemma_apply_move_preserves(s, ms[0], t);
            lemma_moves_lower_bound(t, ms.subrange(1, ms.len() as int));
        } else {
            assert(false);
        }
    }
}

proof fn lemma_identity_count(s: Seq<i8>, v: i8)
    requires
        forall|i: int| 0 <= i < s.len() ==> (#[trigger] s[i]) as int == i,
        s.len() <= 9,
        0 <= v < s.len(),
    ensures
        count_val(s, v) == 1,
    decreases s.len(),
{
    if v as int == s.len() - 1 {
        lemma_count_zero(s.drop_last(), v);
    } else {
        lemma_identity_count(s.drop_last(), v);
        assert(s.last() != v);
    }
}

/// The goal arrangement is a valid board state.
pub proof fn lemma_goal_valid()
    ensures
        valid_state(goal_seq()),
{
    let g = goal_seq();
    assert forall|v: i8| 0 <= v < 9 implies #[trigger] count_val(g, v) == 1 by {
        lemma_identity_count(g, v);
    }
}

proof fn lemma_inv_row_nonneg_bound(s: Seq<i8>, i: int, j: int)
    requires
        0 <= j <= s.len(),
    ensures
        0 <= inv_row(s, i, j) <= s.len() - j,
    decreases s.len() - j,
{
    if j < s.len() {
        lemma_inv_row_nonneg_bound(s, i, j + 1);
    }
}

proof fn lemma_inv_from_nonneg_bound(s: Seq<i8>, i: int)
    requires
        0 <= i <= s.len(),
        s.len() == 9,
    ensures
        0 <= inv_from(s, i) <= 9 * (9 - i),
    decreases 9 - i,
{
    if i < 9 {
        lemma_inv_row_nonneg_bound(s, i, i + 1);
        lemma_inv_from_nonneg_bound(s, i + 1);
    }
}

proof fn lemma_inv_row_zero(s: Seq<i8>, i: int, j: int)
    requires
        0 <= i < s.len(),
        0 <= j <= s.len(),
        forall|k: int| j <= k < s.len() ==> !(s[i] > #[trigger] s[k]),
    ensures
        inv_row(s, i, j) == 0,
    decreases s.len() - j,
{
    if j < s.len() {
        lemma_inv_row_zero(s, i, j + 1);
    }
}

proof fn lemma_sorted_inv_from_zero(s: Seq<i8>, i: int)
    requires
        0 <= i <= s.len(),
        forall|k: int, l: int| 0 <= k < l < s.len() ==> !(#[trigger] s[k] > #[trigger] s[l]),
    ensures
        inv_from(s, i) == 0,
    decreases s.len() - i,
{
    if i < s.len() {
        lemma_inv_row_zero(s, i, i + 1);
        lemma_sorted_inv_from_zero(s, i + 1);
    }
}

/// The goal arrangement has no inversions, so the parity precheck accepts it.
pub proof fn lemma_goal_zero_inversions()
    ensures
        inversions(goal_seq()) == 0,
{
    lemma_sorted_inv_from_zero(goal_seq(), 0);
}

/// Powers of nine, the radix of the board encoding.
pub open spec fn pow9(n: int) -> int
    decreases n,
{
    if n <= 0 {
        1
    } else {
        9 * pow9(n - 1)
    }
}

/// The first `n` cells of a board read as a base-9 number.
pub open spec fn encode_prefix(s: Seq<i8>, n: int) -> int
    decreases n,
{
    if n <= 0 {
        0
    } else {
        encode_prefix(s, n - 1) + (s[n - 1] as int) * pow9(n - 1)
    }
}

/// A whole board read as a base-9 number: distinct boards get distinct codes.
pub open spec fn encode_state(s: Seq<i8>) -> int {
    encode_prefix(s, 9)
}

pub proof fn lemma_pow9_pos(n: int)
    ensures
        pow9(n) >= 1,
    decreases n,
{
    if n > 0 {
        lemma_pow9_pos(n - 1);
    }
}

pub proof fn lemma_encode_prefix_bounds(s: Seq<i8>, n: int)
    requires
        in_range(s),
        0 <= n <= s.len(),
    ensures
        0 <= encode_prefix(s, n) < pow9(n),
    decreases n,
{
    if n > 0 {
        lemma_encode_prefix_bounds(s, n - 1);
        lemma_pow9_pos(n - 1);
        let v = s[n - 1] as int;
        let p = pow9(n - 1);
        assert(0 <= v * p <= 8 * p) by (nonlinear_arith)
            requires
                0 <= v <= 8,
                p >= 1,
        ;
    }
}

proof fn lemma_encode_prefix_eq(s: Seq<i8>, t: Seq<i8>, n: int)
    requires
        in_range(s),
        in_range(t),
        0 <= n <= s.len(),
        n <= t.len(),
        encode_prefix(s, n) == encode_prefix(t, n),
    ensures
        forall|i: int| 0 <= i < n ==> s[i] == #[trigger] t[i],
    decreases n,
{
    if n > 0 {
        let p = pow9(n - 1);
        lemma_pow9_pos(n - 1);
        lemma_encode_prefix_bounds(s, n - 1);
        lemma_encode_prefix_bounds(t, n - 1);
        let a = s[n - 1] as int;
        let b = t[n - 1] as int;
        let es = encode_prefix(s, n - 1);
        let et = encode_prefix(t, n - 1);
        assert(a == b) by (nonlinear_arith)
            requires
                a * p + es == b * p + et,
                0 <= es < p,
                0 <= et < p,
        ;
        lemma_encode_prefix_eq(s, t, n - 1);
    }
}

/// Two boards with the same base-9 code are the same board.
pub proof fn lemma_encode_injective(s: Seq<i8>, t: Seq<i8>)
    requires
        in_range(s),
        in_range(t),
        s.len() == 9,
        t.len() == 9,
        encode_state(s) == encode_state(t),
    ensures
        s == t,
{
    lemma_encode_prefix_eq(s, t, 9);
    assert(s =~= t);
}

/// Builds the canonical ascending arrangement `0, 1, ..., 8`.
pub fn create_array_with_increasing_value() -> (r: Vec<i8>)
    ensures
        r@ == goal_seq(),
{
    let mut r: Vec<i8> = Vec::new();
    let mut i: usize = 0;
    while i < 9
        invariant
            i <= 9,
            r@.len() == i,
            forall|k: int| 0 <= k < i ==> (#[trigger] r@[k]) as int == k,
        decreases 9 - i,
    {
        r.push(i as i8);
        i += 1;
    }
    proof {
        assert(r@ =~= goal_seq());
    }
    r
}

fn count_occurrences(s: &Vec<i8>, v: i8) -> (c: usize)
    ensures
        c == count_val(s@, v),
{
    let mut c: usize = 0;
    let mut i: usize = 0;
    while i < s.len()
        invariant
            i <= s@.len(),
            c <= i,
            c == count_val(s@.take(i as int), v),
        decreases s@.len() - i,
    {
        proof {
            lemma_count_take_step(s@, v, i as int);
        }
        if s[i] == v {
            c += 1;
        }
        i += 1;
    }
    proof {
        assert(s@.take(s@.len() as int) =~= s@);
    }
    c
}

/// Decides whether `s` is a well-formed board state: length 9 and a
/// permutation of `0 .. 9`.
pub fn is_valid_state(s: &Vec<i8>) -> (r: bool)
    ensures
        r == valid_state(s@),
{
    if s.len() != 9 {
        return false;
    }
    let mut i: usize = 0;
    while i < 9
        invariant
            s@.len() == 9,
            i <= 9,
            forall|k: int| 0 <= k < i ==> 0 <= #[trigger] s@[k] < 9,
        decreases 9 - i,
    {
        let x = s[i];
        if x < 0 || x >= 9 {
            assert(!in_range(s@));
            return false;
        }
        i += 1;
    }
    let mut v: i8 = 0;
    while v < 9
        invariant
            s@.len() == 9,
            in_range(s@),
            0 <= v <= 9,
            forall|w: i8| 0 <= w < v ==> #[trigger] count_val(s@, w) == 1,
        decreases 9 - v,
    {
        let c = count_occurrences(s, v);
        if c != 1 {
            assert(count_val(s@, v) != 1);
            return false;
        }
        v += 1;
    }
    true
}

/// Parity precheck: the scramble is taken as solvable when its inversion
/// count is even.
pub fn check_solvability(puzzle_state: &Vec<i8>) -> (r: bool)
    requires
        puzzle_state@.len() == 9,
    ensures
        r == (inversions(puzzle_state@) % 2 == 0),
{
    let ghost s = puzzle_state@;
    let mut inversion_count: usize = 0;
    let mut i: usize = 0;
    while i < 9
        invariant
            puzzle_state@ == s,
            s.len() == 9,
            i <= 9,
            inversion_count == inversions(s) - inv_from(s, i as int),
            inversion_count <= 100,
        decreases 9 - i,
    {
        let mut j: usize = i + 1;
        proof {
            assert(inv_from(s, i as int) == inv_row(s, i as int, i as int + 1) + inv_from(
                s,
                i as int + 1,
            ));
        }
        while j < 9
            invariant
                puzzle_state@ == s,
                s.len() == 9,
                i < 9,
                i + 1 <= j <= 9,
                inversion_count == inversions(s) - inv_from(s, i as int + 1) - inv_row(
                    s,
                    i as int,
                    j as int,
                ),
                inversion_count <= 100,
            decreases 9 - j,
        {
            proof {
                assert(inv_row(s, i as int, j as int) == inv_pair(s, i as int, j as int) + inv_row(
                    s,
                    i as int,
                    j as int + 1,
                ));
                lemma_inv_from_nonneg_bound(s, 0);
                lemma_inv_from_nonneg_bound(s, i as int + 1);
                lemma_inv_row_nonneg_bound(s, i as int, j as int + 1);
            }
            if puzzle_state[i] != MOVABLE_PIECE && puzzle_state[j] != MOVABLE_PIECE
                && puzzle_state[i] > puzzle_state[j] {
                inversion_count += 1;
            }
            j += 1;
        }
        proof {
            assert(inv_row(s, i as int, 9) == 0);
        }
        i += 1;
    }
    proof {
        assert(inv_from(s, 9) == 0);
    }
    inversion_count % 2 == 0
}

/// Element-wise equality of two board vectors.
pub fn states_equal(a: &Vec<i8>, b: &Vec<i8>) -> (r: bool)
    ensures
        r == (a@ == b@),
{
    if a.len() != b.len() {
        assert(a@ != b@);
        return false;
    }
    let mut i: usize = 0;
    while i < a.len()
        invariant
            a@.len() == b@.len(),
            i <= a@.len(),
            forall|k: int| 0 <= k < i ==> a@[k] == #[trigger] b@[k],
        decreases a@.len() - i,
    {
        if a[i] != b[i] {
            assert(a@[i as int] != b@[i as int]);
            return false;
        }
        i += 1;
    }
    proof {
        assert(a@ =~= b@);
    }
    true
}

/// A fresh vector holding the same board.
pub fn clone_state(v: &Vec<i8>) -> (r: Vec<i8>)
    ensures
        r@ == v@,
{
    let mut r: Vec<i8> = Vec::new();
    let mut i: usize = 0;
    while i < v.len()
        invariant
            i <= v@.len(),
            r@ == v@.take(i as int),
        decreases v@.len() - i,
    {
        r.push(v[i]);
        proof {
            assert(v@.take(i as int).push(v@[i as int]) =~= v@.take(i as int + 1));
        }
        i += 1;
    }
    proof {
        assert(v@.take(v@.len() as int) =~= v@);
    }
    r
}

} // verus!
