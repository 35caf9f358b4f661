use vstd::prelude::*;

use crate::board::MOVABLE_PIECE;
use crate::board::apply_move;
use crate::board::blank_of;
use crate::board::clone_state;
use crate::board::goal_seq;
use crate::board::in_range;
use crate::board::lemma_blank_exists;
use crate::board::lemma_cell_coords;
use crate::board::lemma_manhattan_prefix_bound;
use crate::board::lemma_manhattan_zero;
use crate::board::lemma_neighbor_coords;
use crate::board::manhattan_prefix;
use crate::board::move_legal;
use crate::board::move_target;
use crate::board::spec_manhattan;
use crate::board::valid_state;
use crate::direction::Direction;

verus! {

/// One board configuration reached during search. Parents are held as indices
/// into the search arena, so a parent outlives all of its descendants.
#[derive(Debug)]
pub struct Node {
    pub puzzle_state: Vec<i8>,
    pub length: usize,
    pub distance: usize,
    pub value: usize,
    pub direction: Option<Direction>,
    pub parent_node: Option<usize>,
    pub is_movable: bool,
    pub is_ending_node: bool,
}

/// Which follow-up moves the generator tries: all four from the root, and
/// from any other node every direction except the one that would immediately
/// undo the move that produced it.
pub open spec fn allowed_direction(incoming: Option<Direction>, d: Direction) -> bool {
    match incoming {
        None => true,
        Some(pd) => d != crate::direction::opposite(pd),
    }
}

/// What the move generator guarantees of every child it hands out, relative
/// to the parent node it was derived from and that parent's arena index.
pub open spec fn child_ok(c: Node, p: Node, pi: usize) -> bool {
    &&& c.is_movable
    &&& c.parent_node == Some(pi)
    &&& c.length == p.length + 1
    &&& c.direction matches Some(d) && apply_move(p.puzzle_state@, d) == Some(c.puzzle_state@)
        && allowed_direction(p.direction, d)
    &&& valid_state(c.puzzle_state@)
    &&& c.distance == spec_manhattan(c.puzzle_state@)
    &&& c.value == c.length + c.distance
    &&& c.is_ending_node <==> c.puzzle_state@ == goal_seq()
}

impl Node {
    /// The root node of a search: no parent, no incoming move, zero length.
    pub fn new(puzzle_state: Vec<i8>) -> (r: Node)
        requires
            puzzle_state@.len() == 9,
            in_range(puzzle_state@),
        ensures
            r.puzzle_state@ == puzzle_state@,
            r.length == 0,
            r.distance == spec_manhattan(puzzle_state@),
            r.value == r.distance,
            r.direction is None,
            r.parent_node is None,
            !r.is_movable,
            r.is_ending_node <==> puzzle_state@ == goal_seq(),
    {
        let distance = Node::manhattan_distance(&puzzle_state);
        let is_ending_node = distance == 0;
        Node {
            puzzle_state,
            length: 0,
            distance,
            value: distance,
            direction: None,
            parent_node: None,
            is_movable: false,
            is_ending_node,
        }
    }

    /// A child node before its move is carried out: it copies the parent's
    /// board, records the incoming move and the parent's arena index, and is
    /// not yet marked movable.
    pub fn new_with_parent(parent: &Node, parent_index: usize, direction: Direction) -> (r: Node)
        requires
            parent.length < usize::MAX,
        ensures
            r.puzzle_state@ == parent.puzzle_state@,
            r.length == parent.length + 1,
            r.distance == 0,
            r.value == 0,
            r.direction == Some(direction),
            r.parent_node == Some(parent_index),
            !r.is_movable,
            !r.is_ending_node,
    {
        Node {
            puzzle_state: clone_state(&parent.puzzle_state),
            length: parent.length + 1,
            distance: 0,
            value: 0,
            direction: Some(direction),
            parent_node: Some(parent_index),
            is_movable: false,
            is_ending_node: false,
        }
    }

    /// The Manhattan-distance heuristic: for every cell whose value is not at
    /// home, the row offset plus the column offset to its home cell. Zero
    /// exactly on the goal arrangement.
    pub fn manhattan_distance(puzzle_state: &Vec<i8>) -> (r: usize)
        requires
            puzzle_state@.len() == 9,
            in_range(puzzle_state@),
        ensures
            r == spec_manhattan(puzzle_state@),
            r <= 36,
            r == 0 <==> puzzle_state@ == goal_seq(),
    {
        let ghost s = puzzle_state@;
        let mut total: usize = 0;
        let mut i: usize = 0;
        while i < 9
            invariant
                puzzle_state@ == s,
                s.len() == 9,
                in_range(s),
                i <= 9,
                total == manhattan_prefix(s, i as int),
                total <= 4 * i,
            decreases 9 - i,
        {
            proof {
                lemma_cell_coords(i as int);
                lemma_cell_coords(s[i as int] as int);
                lemma_manhattan_prefix_bound(s, i as int);
            }
            let v = puzzle_state[i] as usize;
            let row_i = i / 3;
            let col_i = i % 3;
            let row_v = v / 3;
            let col_v = v % 3;
            let dr = if row_i >= row_v {
                row_i - row_v
            } else {
                row_v - row_i
            };
            let dc = if col_i >= col_v {
                col_i - col_v
            } else {
                col_v - col_i
            };
            total = total + dr + dc;
            i += 1;
        }
        proof {
            lemma_manhattan_zero(s);
        }
        total
    }

    /// Recomputes the heuristic and the f-cost after the board was changed by
    /// a legal move, and marks the node movable.
    fn update(&mut self)
        requires
            old(self).puzzle_state@.len() == 9,
            in_range(old(self).puzzle_state@),
            old(self).length <= usize::MAX - 36,
        ensures
            final(self).puzzle_state == old(self).puzzle_state,
            final(self).length == old(self).length,
            final(self).distance == spec_manhattan(old(self).puzzle_state@),
            final(self).value == final(self).length + final(self).distance,
            final(self).direction == old(self).direction,
            final(self).parent_node == old(self).parent_node,
            final(self).is_movable,
            final(self).is_ending_node == old(self).is_ending_node,
    {
        self.distance = Node::manhattan_distance(&self.puzzle_state);
        self.value = self.distance + self.length;
        self.is_movable = true;
    }
}

/// Whether sliding the blank from `current_position` in `direction` would
/// leave the 3x3 grid (this rejects wraparound, such as Left out of the
/// leftmost column).
fn is_out_of_bounds(current_position: usize, direction: Direction) -> (r: bool)
    requires
        current_position < 9,
    ensures
        r == !move_legal(current_position as int, direction),
{
    let column = current_position % 3;
    let row = current_position / 3;
    match direction {
        Direction::Left => column < 1,
        Direction::Right => column >= 2,
        Direction::Up => row < 1,
        Direction::Down => row >= 2,
    }
}

/// Whether the node's board is the goal arrangement.
fn check_completion(node: &Node) -> (r: bool)
    ensures
        r == (node.puzzle_state@ == goal_seq()),
{
    if node.puzzle_state.len() != 9 {
        assert(node.puzzle_state@ != goal_seq());
        return false;
    }
    let mut i: usize = 0;
    while i < 9
        invariant
            node.puzzle_state@.len() == 9,
            i <= 9,
            forall|k: int| 0 <= k < i ==> (#[trigger] node.puzzle_state@[k]) as int == k,
        decreases 9 - i,
    {
        if node.puzzle_state[i] != i as i8 {
            assert(node.puzzle_state@[i as int] != goal_seq()[i as int]);
            return false;
        }
        i += 1;
    }
    proof {
        assert(node.puzzle_state@ =~= goal_seq());
    }
    true
}

/// First cell holding the blank value.
fn find_blank(s: &Vec<i8>) -> (r: usize)
    requires
        valid_state(s@),
    ensures
        r < 9,
        s@[r as int] == MOVABLE_PIECE,
        r as int == blank_of(s@),
{
    proof {
        lemma_blank_exists(s@);
    }
    let mut i: usize = 0;
    while i < 9
        invariant
            valid_state(s@),
            i <= 9,
            forall|k: int| 0 <= k < i ==> #[trigger] s@[k] != MOVABLE_PIECE,
        decreases 9 - i,
    {
        if s[i] == MOVABLE_PIECE {
            proof {
                crate::board::lemma_blank_at(s@, i as int);
            }
            return i;
        }
        i += 1;
    }
    proof {
        assert(s@[blank_of(s@)] != MOVABLE_PIECE);
        assert(false);
    }
    0
}

fn swap_tiles(v: &mut Vec<i8>, i: usize, j: usize)
    requires
        i < old(v)@.len(),
        j < old(v)@.len(),
    ensures
        final(v)@ == old(v)@.update(i as int, old(v)@[j as int]).update(
            j as int,
            old(v)@[i as int],
        ),
{
    let a = v[i];
    let b = v[j];
    v.set(i, b);
    v.set(j, a);
}

/// Tries the single move `direction` from the parent's board. When the move is
/// legal the result is a fully constructed, movable child; when it would leave
/// the grid the result is marked not movable and must be discarded.
fn child_toward(parent: &Node, parent_index: usize, direction: Direction) -> (c: Node)
    requires
        valid_state(parent.puzzle_state@),
        parent.length < usize::MAX - 40,
        allowed_direction(parent.direction, direction),
    ensures
        c.is_movable ==> child_ok(c, *parent, parent_index),
        c.is_movable == move_legal(blank_of(parent.puzzle_state@), direction),
        c.direction == Some(direction),
        c.parent_node == Some(parent_index),
        c.length == parent.length + 1,
        !c.is_movable ==> c.puzzle_state@ == parent.puzzle_state@ && c.distance == 0 && c.value
            == 0 && !c.is_ending_node,
{
    let ghost s = parent.puzzle_state@;
    let mut node = Node::new_with_parent(parent, parent_index, direction);
    let blank = find_blank(&node.puzzle_state);
    if !is_out_of_bounds(blank, direction) {
        proof {
            lemma_cell_coords(blank as int);
            lemma_neighbor_coords(blank as int, direction);
        }
        let target: usize = match direction {
            Direction::Left => blank - 1,
            Direction::Right => blank + 1,
            Direction::Up => blank - 3,
            Direction::Down => blank + 3,
        };
        swap_tiles(&mut node.puzzle_state, blank, target);
        proof {
            assert(s.update(blank as int, s[target as int]).update(
                target as int,
                s[blank as int],
            ) == s.update(blank as int, s[target as int]).update(target as int, MOVABLE_PIECE));
            assert(apply_move(s, direction) == Some(node.puzzle_state@));
            crate::board::lemma_apply_move_preserves(s, direction, node.puzzle_state@);
        }
        node.update();
        if check_completion(&node) {
            node.is_ending_node = true;
        }
    }
    node
}

proof fn lemma_exists_dir_preserved(old_r: Seq<Node>, new_r: Seq<Node>, d: Direction)
    requires
        old_r.len() <= new_r.len(),
        forall|k: int| 0 <= k < old_r.len() ==> new_r[k] == #[trigger] old_r[k],
        exists|k: int| 0 <= k < old_r.len() && (#[trigger] old_r[k]).direction == Some(d),
    ensures
        exists|k: int| 0 <= k < new_r.len() && (#[trigger] new_r[k]).direction == Some(d),
{
    let k = choose|k: int| 0 <= k < old_r.len() && (#[trigger] old_r[k]).direction == Some(d);
    assert(new_r[k].direction == Some(d));
}

/// The move generator: the complete set of legal successors of the node at
/// `parent_index`, leaving out exactly the direction that would immediately
/// undo the move that produced the parent. Every returned node is movable and
/// fully constructed; candidates whose move would leave the grid are filtered
/// out here; every legal non-reversing direction yields exactly one child,
/// which records that direction.
pub fn get_possible_nodes(parent: &Node, parent_index: usize) -> (r: Vec<Node>)
    requires
        valid_state(parent.puzzle_state@),
        parent.length < usize::MAX - 40,
    ensures
        forall|k: int| 0 <= k < r@.len() ==> child_ok(#[trigger] r@[k], *parent, parent_index),
        forall|d: Direction|
            allowed_direction(parent.direction, d) && #[trigger] move_legal(
                blank_of(parent.puzzle_state@),
                d,
            ) ==> exists|k: int| 0 <= k < r@.len() && (#[trigger] r@[k]).direction == Some(d),
        forall|k1: int, k2: int|
            0 <= k1 < k2 < r@.len() ==> (#[trigger] r@[k1]).direction != (
            #[trigger] r@[k2]).direction,
{
    let try_left: bool = match parent.direction {
        None => true,
        Some(Direction::Left) => true,
        Some(Direction::Up) => true,
        Some(Direction::Down) => true,
        Some(Direction::Right) => false,
    };
    let try_right: bool = match parent.direction {
        None => true,
        Some(Direction::Right) => true,
        Some(Direction::Up) => true,
        Some(Direction::Down) => true,
        Some(Direction::Left) => false,
    };
    let try_up: bool = match parent.direction {
        None => true,
        Some(Direction::Left) => true,
        Some(Direction::Right) => true,
        Some(Direction::Up) => true,
        Some(Direction::Down) => false,
    };
    let try_down: bool = match parent.direction {
        None => true,
        Some(Direction::Left) => true,
        Some(Direction::Right) => true,
        Some(Direction::Down) => true,
        Some(Direction::Up) => false,
    };
    proof {
        assert(try_left == allowed_direction(parent.direction, Direction::Left));
        assert(try_right == allowed_direction(parent.direction, Direction::Right));
        assert(try_up == allowed_direction(parent.direction, Direction::Up));
        assert(try_down == allowed_direction(parent.direction, Direction::Down));
    }
    let ghost bl = blank_of(parent.puzzle_state@);
    let mut result: Vec<Node> = Vec::new();
    if try_left {
        let c = child_toward(parent, parent_index, Direction::Left);
        if c.is_movable {
            result.push(c);
            proof {
                assert(result@[result@.len() - 1].direction == Some(Direction::Left));
            }
        }
    }
    let ghost r1 = result@;
    proof {
        assert(try_left && move_legal(bl, Direction::Left) ==> r1.len() == 1 && r1[0].direction
            == Some(Direction::Left));
        assert(forall|k: int|
            0 <= k < r1.len() ==> (#[trigger] r1[k]).direction == Some(Direction::Left));
    }
    if try_right {
        let c = child_toward(parent, parent_index, Direction::Right);
        if c.is_movable {
            result.push(c);
            proof {
                assert(result@[result@.len() - 1].direction == Some(Direction::Right));
            }
        }
    }
    let ghost r2 = result@;
    proof {
        assert(forall|k: int| 0 <= k < r1.len() ==> r2[k] == #[trigger] r1[k]);
        if try_left && move_legal(bl, Direction::Left) {
            lemma_exists_dir_preserved(r1, r2, Direction::Left);
        }
        assert(try_right && move_legal(bl, Direction::Right) ==> exists|k: int|
            0 <= k < r2.len() && (#[trigger] r2[k]).direction == Some(Direction::Right));
        assert(forall|k: int|
            0 <= k < r2.len() ==> (#[trigger] r2[k]).direction == Some(Direction::Left)
                || r2[k].direction == Some(Direction::Right));
        assert(forall|k1: int, k2: int|
            0 <= k1 < k2 < r2.len() ==> (#[trigger] r2[k1]).direction != (
            #[trigger] r2[k2]).direction);
    }
    if try_up {
        let c = child_toward(parent, parent_index, Direction::Up);
        if c.is_movable {
            result.push(c);
            proof {
                assert(result@[result@.len() - 1].direction == Some(Direction::Up));
            }
        }
    }
    let ghost r3 = result@;
    proof {
        assert(forall|k: int| 0 <= k < r2.len() ==> r3[k] == #[trigger] r2[k]);
        if try_left && move_legal(bl, Direction::Left) {
            lemma_exists_dir_preserved(r2, r3, Direction::Left);
        }
        if try_right && move_legal(bl, Direction::Right) {
            lemma_exists_dir_preserved(r2, r3, Direction::Right);
        }
        assert(try_up && move_legal(bl, Direction::Up) ==> exists|k: int|
            0 <= k < r3.len() && (#[trigger] r3[k]).direction == Some(Direction::Up));
        assert(forall|k: int|
            0 <= k < r3.len() ==> (#[trigger] r3[k]).direction == Some(Direction::Left)
                || r3[k].direction == Some(Direction::Right) || r3[k].direction == Some(
                Direction::Up,
            ));
        assert(forall|k1: int, k2: int|
            0 <= k1 < k2 < r3.len() ==> (#[trigger] r3[k1]).direction != (
            #[trigger] r3[k2]).direction);
    }
    if try_down {
        let c = child_toward(parent, parent_index, Direction::Down);
        if c.is_movable {
            result.push(c);
            proof {
                assert(result@[result@.len() - 1].direction == Some(Direction::Down));
            }
        }
    }
    proof {
        let r4 = result@;
        assert(forall|k: int| 0 <= k < r3.len() ==> r4[k] == #[trigger] r3[k]);
        if try_left && move_legal(bl, Direction::Left) {
            lemma_exists_dir_preserved(r3, r4, Direction::Left);
        }
        if try_right && move_legal(bl, Direction::Right) {
            lemma_exists_dir_preserved(r3, r4, Direction::Right);
        }
        if try_up && move_legal(bl, Direction::Up) {
            lemma_exists_dir_preserved(r3, r4, Direction::Up);
        }
        assert(try_down && move_legal(bl, Direction::Down) ==> exists|k: int|
            0 <= k < r4.len() && (#[trigger] r4[k]).direction == Some(Direction::Down));
        assert(forall|k1: int, k2: int|
            0 <= k1 < k2 < r4.len() ==> (#[trigger] r4[k1]).direction != (
            #[trigger] r4[k2]).direction);
        assert forall|d: Direction|
            allowed_direction(parent.direction, d) && #[trigger] move_legal(bl, d) implies exists|
            k: int,
        |
            0 <= k < result@.len() && (#[trigger] result@[k]).direction == Some(d) by {
            match d {
                Direction::Left => {},
                Direction::Right => {},
                Direction::Up => {},
                Direction::Down => {},
            }
        }
    }
    result
}

} // verus!
