use vstd::prelude::*;

use crate::board::apply_move;
use crate::board::apply_moves;
use crate::board::blank_of;
use crate::board::clone_state;
use crate::board::goal_seq;
use crate::board::encode_state;
use crate::board::is_valid_state;
use crate::board::lemma_encode_injective;
use crate::board::lemma_encode_prefix_bounds;
use crate::board::lemma_pow9_pos;
use crate::board::pow9;
use crate::board::lemma_apply_move_reverse;
use crate::board::lemma_apply_moves_cons;
use crate::board::move_legal;
use crate::board::states_equal;
use crate::board::valid_state;
use crate::direction::Direction;
use crate::direction::opposite;
use crate::node::Node;
use crate::node::allowed_direction;
use crate::node::child_ok;
use crate::node::get_possible_nodes;

verus! {

/// Default bound on node expansions before the search gives up.
pub const DEFAULT_EXPANSION_LIMIT: usize = 1000000;

/// Operational cap on the expansion bound, so costs never overflow.
pub const EXPANSION_LIMIT_CAP: usize = 1000000000;

/// Number of length-9 cell vectors over the values `0 .. 9`: an upper bound on
/// the distinct boards a search can meet. A solver whose expansion bound is at
/// least this can never run out of budget before running out of boards.
pub const COMPLETE_SEARCH_LIMIT: usize = 387420489;

/// Why a solve call returned no move list.
#[derive(Clone, Copy, Debug, PartialEq, Eq, Structural)]
pub enum SolveError {
    /// The input was not a permutation of `0 .. 9` of length 9.
    MalformedInput,
    /// The frontier was exhausted without reaching the goal.
    Unsolvable,
    /// The expansion bound was hit before the goal was reached.
    Aborted,
}

/// A successful search result: the final board and the moves that reach it.
pub struct SolvedState {
    pub puzzle_state: Vec<i8>,
    pub moves: Vec<Direction>,
}

impl SolvedState {
    pub fn new(puzzle_state: Vec<i8>, moves: Vec<Direction>) -> (r: SolvedState)
        ensures
            r.puzzle_state == puzzle_state,
            r.moves == moves,
    {
        SolvedState { puzzle_state, moves }
    }
}

/// A sliding-tile solver. On a well-formed input, a returned move list really
/// solves the board: applying it in order yields the goal arrangement, and no
/// move is immediately undone. A malformed input is rejected exactly when it
/// is not a permutation of `0 .. 9`, and an unsolvable answer is sound: no
/// move list whatsoever reaches the goal from that input.
pub trait Solve {
    fn solve(&mut self, puzzle_state: &Vec<i8>) -> (r: Result<SolvedState, SolveError>)
        ensures
            r matches Ok(solved) ==> valid_state(puzzle_state@),
            r matches Ok(solved) ==> solved.puzzle_state@ == goal_seq(),
            r matches Ok(solved) ==> apply_moves(puzzle_state@, solved.moves@) == Some(goal_seq()),
            r matches Ok(solved) ==> (forall|k: int|
                0 <= k < solved.moves@.len() - 1 ==> solved.moves@[k + 1] != opposite(
                    #[trigger] solved.moves@[k],
                )),
            r == Err::<SolvedState, SolveError>(SolveError::MalformedInput) <==> !valid_state(
                puzzle_state@,
            ),
            r == Err::<SolvedState, SolveError>(SolveError::Unsolvable) ==> (forall|
                ms: Seq<Direction>,
            | apply_moves(puzzle_state@, ms) != Some(goal_seq())),
            valid_state(puzzle_state@) && puzzle_state@ == goal_seq() ==> (r matches Ok(solved)
                && solved.moves@.len() == 0 && solved.puzzle_state@ == puzzle_state@),
    ;
}

/// One parent link of the search arena: a non-root entry was produced by the
/// move generator from an earlier entry.
pub open spec fn wf_link(a: Seq<Node>, i: int) -> bool {
    a[i].parent_node matches Some(p) && 0 <= p < i && child_ok(a[i], a[p as int], p)
}

/// Well-formedness of the search arena (the union of frontier and visited
/// set): entry 0 is the root for `init`, and every later entry is a valid
/// child of an earlier entry.
pub open spec fn wf_arena(a: Seq<Node>, init: Seq<i8>) -> bool {
    &&& a.len() >= 1
    &&& a[0].puzzle_state@ == init
    &&& a[0].parent_node is None
    &&& a[0].direction is None
    &&& a[0].length == 0
    &&& forall|i: int| 0 <= i < a.len() ==> valid_state((#[trigger] a[i]).puzzle_state@)
    &&& forall|i: int| 0 <= i < a.len() ==> (#[trigger] a[i]).length <= i
    &&& forall|i: int| 1 <= i < a.len() ==> #[trigger] wf_link(a, i)
}

/// No two nodes of the arena (frontier and visited set together) hold the
/// same board state.
pub open spec fn distinct_states(a: Seq<Node>) -> bool {
    forall|i: int, j: int|
        0 <= i < j < a.len() ==> (#[trigger] a[i]).puzzle_state@ != (#[trigger] a[j]).puzzle_state@
}

/// The recorded goal node: a valid child of an arena entry whose board is the
/// goal arrangement.
pub open spec fn goal_ok(g: Node, a: Seq<Node>) -> bool {
    &&& g.parent_node matches Some(p) && p < a.len() && child_ok(g, a[p as int], p)
    &&& g.puzzle_state@ == goal_seq()
    &&& g.is_ending_node
}

/// Whether the arena index `i` is on the frontier.
pub open spec fn in_open(open: Seq<usize>, i: int) -> bool {
    exists|t: int| 0 <= t < open.len() && open[t] == i
}

/// The frontier holds each arena index at most once.
pub open spec fn distinct_indices(open: Seq<usize>) -> bool {
    forall|t1: int, t2: int|
        #![trigger open[t1], open[t2]]
        0 <= t1 < t2 < open.len() ==> open[t1] != open[t2]
}

/// Every legal move from the board of arena entry `i` leads to a board that
/// some arena entry holds.
pub open spec fn successor_covered(a: Seq<Node>, i: int, d: Direction) -> bool {
    match apply_move(a[i].puzzle_state@, d) {
        Some(t) => exists|j: int| 0 <= j < a.len() && (#[trigger] a[j]).puzzle_state@ == t,
        None => true,
    }
}

/// No arena entry holds the goal board.
pub open spec fn no_goal_in(a: Seq<Node>) -> bool {
    forall|i: int| 0 <= i < a.len() ==> (#[trigger] a[i]).puzzle_state@ != goal_seq()
}

/// Bookkeeping of a swap-style removal from the frontier: the removed index
/// leaves, every other index stays, and no index enters.
proof fn lemma_swap_remove_open(old_open: Seq<usize>, new_open: Seq<usize>, best: int)
    requires
        0 <= best < old_open.len(),
        distinct_indices(old_open),
        new_open == old_open.update(best, old_open.last()).drop_last(),
    ensures
        distinct_indices(new_open),
        !in_open(new_open, old_open[best] as int),
        forall|i: int| in_open(old_open, i) && i != old_open[best] ==> in_open(new_open, i),
        forall|i: int| !in_open(old_open, i) ==> !in_open(new_open, i),
{
    let chosen = old_open[best];
    let n = old_open.len() as int;
    assert(new_open.len() == n - 1);
    assert forall|t1: int, t2: int|
        #![trigger new_open[t1], new_open[t2]]
        0 <= t1 < t2 < n - 1 implies new_open[t1] != new_open[t2] by {
        let s1: int = if t1 == best {
            n - 1
        } else {
            t1
        };
        let s2: int = if t2 == best {
            n - 1
        } else {
            t2
        };
        assert(new_open[t1] == old_open[s1]);
        assert(new_open[t2] == old_open[s2]);
        if s1 < s2 {
            assert(old_open[s1] != old_open[s2]);
        } else {
            assert(old_open[s2] != old_open[s1]);
        }
    }
    assert forall|t: int| 0 <= t < n - 1 implies #[trigger] new_open[t] != chosen by {
        let s: int = if t == best {
            n - 1
        } else {
            t
        };
        assert(new_open[t] == old_open[s]);
        if s < best {
            assert(old_open[s] != old_open[best]);
        } else if best < s {
            assert(old_open[best] != old_open[s]);
        }
    }
    assert forall|i: int| in_open(old_open, i) && i != chosen implies in_open(new_open, i) by {
        let t = choose|t: int| 0 <= t < old_open.len() && old_open[t] == i;
        if t == n - 1 {
            assert(best < n - 1);
            assert(new_open[best] == i);
        } else {
            assert(new_open[t] == i);
        }
    }
    assert forall|i: int| !in_open(old_open, i) implies !in_open(new_open, i) by {
        if in_open(new_open, i) {
            let t = choose|t: int| 0 <= t < new_open.len() && new_open[t] == i;
            if t == best {
                assert(old_open[n - 1] == i);
            } else {
                assert(old_open[t] == i);
            }
        }
    }
}

/// The set of board codes of the first `k` arena entries; with pairwise
/// distinct boards, it has exactly `k` elements.
proof fn lemma_encodings(a: Seq<Node>, k: int) -> (s: Set<int>)
    requires
        0 <= k <= a.len(),
        distinct_states(a),
        forall|i: int| 0 <= i < a.len() ==> valid_state((#[trigger] a[i]).puzzle_state@),
    ensures
        s.finite(),
        s.len() == k,
        forall|e: int|
            #[trigger] s.contains(e) ==> exists|i: int|
                0 <= i < k && e == encode_state((#[trigger] a[i]).puzzle_state@),
    decreases k,
{
    if k == 0 {
        let s = Set::<int>::empty();
        broadcast use vstd::set::axiom_set_empty_len;

        assert(s.len() == 0);
        s
    } else {
        let s0 = lemma_encodings(a, k - 1);
        let e = encode_state(a[k - 1].puzzle_state@);
        if s0.contains(e) {
            let i = choose|i: int|
                0 <= i < k - 1 && e == encode_state((#[trigger] a[i]).puzzle_state@);
            lemma_encode_injective(a[i].puzzle_state@, a[k - 1].puzzle_state@);
            assert(false);
            s0
        } else {
            vstd::set::axiom_set_insert_len(s0, e);
            s0.insert(e)
        }
    }
}

/// An arena of pairwise distinct valid boards cannot outgrow the number of
/// possible boards.
proof fn lemma_distinct_states_bound(a: Seq<Node>)
    requires
        distinct_states(a),
        forall|i: int| 0 <= i < a.len() ==> valid_state((#[trigger] a[i]).puzzle_state@),
    ensures
        a.len() <= pow9(9),
{
    let s = lemma_encodings(a, a.len() as int);
    lemma_pow9_pos(9);
    vstd::set_lib::lemma_int_range(0, pow9(9));
    assert forall|e: int| s.contains(e) implies vstd::set_lib::set_int_range(
        0,
        pow9(9),
    ).contains(e) by {
        let i = choose|i: int|
            0 <= i < a.len() && e == encode_state((#[trigger] a[i]).puzzle_state@);
        lemma_encode_prefix_bounds(a[i].puzzle_state@, 9);
    }
    assert(s.subset_of(vstd::set_lib::set_int_range(0, pow9(9))));
    vstd::set_lib::lemma_len_subset(s, vstd::set_lib::set_int_range(0, pow9(9)));
}

/// From a board held in an arena that is closed under legal moves and free of
/// the goal board, no move list reaches the goal.
proof fn lemma_covered_set_unreachable(a: Seq<Node>, s: Seq<i8>, ms: Seq<Direction>)
    requires
        forall|i: int, d: Direction| 0 <= i < a.len() ==> #[trigger] successor_covered(a, i, d),
        exists|j: int| 0 <= j < a.len() && (#[trigger] a[j]).puzzle_state@ == s,
        no_goal_in(a),
    ensures
        apply_moves(s, ms) != Some(goal_seq()),
    decreases ms.len(),
{
    let j = choose|j: int| 0 <= j < a.len() && (#[trigger] a[j]).puzzle_state@ == s;
    if ms.len() == 0 {
        assert(a[j].puzzle_state@ != goal_seq());
    } else {
        let step = apply_move(s, ms[0]);
        if step is Some {
            assert(successor_covered(a, j, ms[0]));
            lemma_covered_set_unreachable(a, step->Some_0, ms.subrange(1, ms.len() as int));
        }
    }
}

proof fn lemma_arena_push(a: Seq<Node>, init: Seq<i8>, node: Node, pi: usize)
    requires
        wf_arena(a, init),
        distinct_states(a),
        pi < a.len(),
        child_ok(node, a[pi as int], pi),
        forall|i: int| 0 <= i < a.len() ==> (#[trigger] a[i]).puzzle_state@ != node.puzzle_state@,
    ensures
        wf_arena(a.push(node), init),
        distinct_states(a.push(node)),
{
    let a2 = a.push(node);
    assert(a2[a.len() as int] == node);
    assert(a2[0] == a[0]);
    assert forall|i: int| 0 <= i < a2.len() implies valid_state(
        (#[trigger] a2[i]).puzzle_state@,
    ) by {
        if i < a.len() {
            assert(a2[i] == a[i]);
        }
    }
    assert forall|i: int| 0 <= i < a2.len() implies (#[trigger] a2[i]).length <= i by {
        if i < a.len() {
            assert(a2[i] == a[i]);
        } else {
            assert(a[pi as int].length <= pi as int);
        }
    }
    assert forall|i: int| 1 <= i < a2.len() implies #[trigger] wf_link(a2, i) by {
        if i < a.len() {
            assert(wf_link(a, i));
            let p = a[i].parent_node->Some_0;
            assert(a2[i] == a[i]);
            assert(a2[p as int] == a[p as int]);
        } else {
            assert(a2[pi as int] == a[pi as int]);
        }
    }
    assert forall|i: int, j: int| 0 <= i < j < a2.len() implies (#[trigger] a2[i]).puzzle_state@
        != (#[trigger] a2[j]).puzzle_state@ by {
        if j < a.len() {
            assert(a2[i] == a[i] && a2[j] == a[j]);
        } else {
            assert(a2[i] == a[i] && a2[j] == node);
        }
    }
}

fn clone_node(n: &Node) -> (r: Node)
    ensures
        r.puzzle_state@ == n.puzzle_state@,
        r.length == n.length,
        r.distance == n.distance,
        r.value == n.value,
        r.direction == n.direction,
        r.parent_node == n.parent_node,
        r.is_movable == n.is_movable,
        r.is_ending_node == n.is_ending_node,
{
    Node {
        puzzle_state: clone_state(&n.puzzle_state),
        length: n.length,
        distance: n.distance,
        value: n.value,
        direction: n.direction,
        parent_node: n.parent_node,
        is_movable: n.is_movable,
        is_ending_node: n.is_ending_node,
    }
}

/// Whether some arena node already holds this board state (duplicate
/// suppression over frontier and visited set together).
fn contains_state(arena: &Vec<Node>, state: &Vec<i8>) -> (r: bool)
    ensures
        r == exists|i: int|
            0 <= i < arena@.len() && (#[trigger] arena@[i]).puzzle_state@ == state@,
{
    let mut i: usize = 0;
    while i < arena.len()
        invariant
            i <= arena@.len(),
            forall|k: int| 0 <= k < i ==> (#[trigger] arena@[k]).puzzle_state@ != state@,
        decreases arena@.len() - i,
    {
        if states_equal(&arena[i].puzzle_state, state) {
            assert((arena@[i as int]).puzzle_state@ == state@);
            return true;
        }
        i += 1;
    }
    false
}

/// Index into `open` of the first entry whose node has minimal f-cost.
fn select_min(arena: &Vec<Node>, open: &Vec<usize>) -> (k: usize)
    requires
        open@.len() > 0,
        forall|t: int| 0 <= t < open@.len() ==> (#[trigger] open@[t]) < arena@.len(),
    ensures
        k < open@.len(),
        forall|t: int|
            0 <= t < open@.len() ==> arena@[open@[k as int] as int].value <= arena@[(
            #[trigger] open@[t]) as int].value,
        forall|t: int|
            0 <= t < k ==> arena@[(#[trigger] open@[t]) as int].value > arena@[open@[k as int] as int].value,
{
    let mut best: usize = 0;
    let mut t: usize = 1;
    while t < open.len()
        invariant
            open@.len() > 0,
            forall|u: int| 0 <= u < open@.len() ==> (#[trigger] open@[u]) < arena@.len(),
            best < t,
            t <= open@.len(),
            forall|u: int|
                0 <= u < t ==> arena@[open@[best as int] as int].value <= arena@[(
                #[trigger] open@[u]) as int].value,
            forall|u: int|
                0 <= u < best ==> arena@[(#[trigger] open@[u]) as int].value > arena@[open@[best as int] as int].value,
        decreases open@.len() - t,
    {
        if arena[open[t]].value < arena[open[best]].value {
            best = t;
        }
        t += 1;
    }
    best
}

fn reverse_moves(v: &Vec<Direction>) -> (r: Vec<Direction>)
    ensures
        r@ == v@.reverse(),
{
    let mut r: Vec<Direction> = Vec::new();
    let mut k: usize = v.len();
    while k > 0
        invariant
            k <= v@.len(),
            r@.len() == v@.len() - k,
            forall|t: int| 0 <= t < r@.len() ==> #[trigger] r@[t] == v@[v@.len() - 1 - t],
        decreases k,
    {
        k -= 1;
        r.push(v[k]);
    }
    proof {
        assert(r@ =~= v@.reverse());
    }
    r
}

/// Walks parent links from the recorded goal node back to the root and
/// returns the move list in root-to-goal order. The root's missing direction
/// is never appended.
#[verifier::rlimit(60)]
fn reconstruct_moves(arena: &Vec<Node>, goal_node: &Node, Ghost(init): Ghost<Seq<i8>>) -> (moves:
    Vec<Direction>)
    requires
        wf_arena(arena@, init),
        goal_ok(*goal_node, arena@),
    ensures
        apply_moves(init, moves@) == Some(goal_seq()),
        forall|k: int|
            0 <= k < moves@.len() - 1 ==> moves@[k + 1] != opposite(#[trigger] moves@[k]),
{
    let d0 = match goal_node.direction {
        Some(d) => d,
        None => {
            proof {
                assert(false);
            }
            Direction::Left
        },
    };
    let mut cur: usize = match goal_node.parent_node {
        Some(p) => p,
        None => {
            proof {
                assert(false);
            }
            0
        },
    };
    let mut rev_moves: Vec<Direction> = Vec::new();
    rev_moves.push(d0);
    proof {
        assert(rev_moves@ =~= seq![d0]);
        assert(rev_moves@.reverse() =~= seq![d0]);
        assert(seq![d0] + Seq::<Direction>::empty() =~= seq![d0]);
        lemma_apply_moves_cons(
            arena@[cur as int].puzzle_state@,
            d0,
            goal_node.puzzle_state@,
            Seq::<Direction>::empty(),
        );
        assert(goal_node.direction == Some(d0));
        assert(allowed_direction(arena@[cur as int].direction, d0));
    }
    while arena[cur].parent_node.is_some()
        invariant
            wf_arena(arena@, init),
            cur < arena@.len(),
            apply_moves(arena@[cur as int].puzzle_state@, rev_moves@.reverse()) == Some(
                goal_seq(),
            ),
            rev_moves@.len() >= 1,
            forall|t: int|
                0 <= t < rev_moves@.len() - 1 ==> (#[trigger] rev_moves@[t]) != opposite(
                    rev_moves@[t + 1],
                ),
            arena@[cur as int].direction matches Some(dc) ==> rev_moves@[rev_moves@.len() - 1]
                != opposite(dc),
        decreases cur,
    {
        proof {
            assert(cur != 0);
            assert(wf_link(arena@, cur as int));
        }
        let d = match arena[cur].direction {
            Some(d) => d,
            None => {
                proof {
                    assert(false);
                }
                Direction::Left
            },
        };
        let p = match arena[cur].parent_node {
            Some(p) => p,
            None => {
                proof {
                    assert(false);
                }
                0
            },
        };
        let ghost old_rev = rev_moves@;
        rev_moves.push(d);
        proof {
            assert(rev_moves@.reverse() =~= seq![d] + old_rev.reverse());
            lemma_apply_moves_cons(
                arena@[p as int].puzzle_state@,
                d,
                arena@[cur as int].puzzle_state@,
                old_rev.reverse(),
            );
            assert(arena@[cur as int].direction == Some(d));
            assert(allowed_direction(arena@[p as int].direction, d));
            assert forall|t: int|
                0 <= t < rev_moves@.len() - 1 implies (#[trigger] rev_moves@[t]) != opposite(
                rev_moves@[t + 1],
            ) by {
                if t < old_rev.len() - 1 {
                    assert(rev_moves@[t] == old_rev[t]);
                    assert(rev_moves@[t + 1] == old_rev[t + 1]);
                } else {
                    assert(rev_moves@[t] == old_rev[old_rev.len() - 1]);
                    assert(rev_moves@[t + 1] == d);
                }
            }
        }
        cur = p;
    }
    proof {
        if cur != 0 {
            assert(wf_link(arena@, cur as int));
        }
        assert(cur == 0);
    }
    let moves = reverse_moves(&rev_moves);
    proof {
        let n = rev_moves@.len() as int;
        assert forall|k: int| 0 <= k < moves@.len() - 1 implies moves@[k + 1] != opposite(
            #[trigger] moves@[k],
        ) by {
            assert(moves@[k] == rev_moves@[n - 1 - k]);
            assert(moves@[k + 1] == rev_moves@[n - 2 - k]);
            assert(rev_moves@[n - 2 - k] != opposite(rev_moves@[n - 2 - k + 1]));
        }
    }
    moves
}

/// The A* search driver. It owns the outcome of the last run: whether a goal
/// node was reached, the goal node itself, and how many expansions were spent.
pub struct AStar {
    pub ending_node: Option<Node>,
    pub is_ending_node_reached: bool,
    /// Bound on node expansions; hitting it yields `SolveError::Aborted`.
    pub expansion_limit: usize,
    /// Diagnostic: expansions performed by the last solve call.
    pub expansions_used: usize,
}

impl AStar {
    pub fn new() -> (r: AStar)
        ensures
            r.is_ending_node_reached == false,
            r.ending_node is None,
            r.expansion_limit == DEFAULT_EXPANSION_LIMIT,
            r.expansions_used == 0,
    {
        AStar {
            ending_node: None,
            is_ending_node_reached: false,
            expansion_limit: DEFAULT_EXPANSION_LIMIT,
            expansions_used: 0,
        }
    }
}

impl Default for AStar {
    fn default() -> (r: Self)
        ensures
            r.is_ending_node_reached == false,
            r.ending_node is None,
            r.expansion_limit == DEFAULT_EXPANSION_LIMIT,
            r.expansions_used == 0,
    {
        AStar::new()
    }
}

impl Solve for AStar {
    fn solve(&mut self, puzzle_state: &Vec<i8>) -> (r: Result<SolvedState, SolveError>)
        ensures
            final(self).is_ending_node_reached == (r is Ok),
            r matches Ok(solved) ==> (final(self).ending_node matches Some(g)
                && g.puzzle_state@ == goal_seq() && g.is_ending_node),
            r is Err ==> final(self).ending_node is None,
            final(self).expansion_limit == old(self).expansion_limit,
            final(self).expansions_used <= (if old(self).expansion_limit > EXPANSION_LIMIT_CAP {
                EXPANSION_LIMIT_CAP as int
            } else {
                old(self).expansion_limit as int
            }),
            r == Err::<SolvedState, SolveError>(SolveError::Aborted)
                ==> final(self).expansions_used == (if old(self).expansion_limit
                > EXPANSION_LIMIT_CAP {
                EXPANSION_LIMIT_CAP as int
            } else {
                old(self).expansion_limit as int
            }),
            r == Err::<SolvedState, SolveError>(SolveError::Aborted) ==> old(
                self,
            ).expansion_limit < COMPLETE_SEARCH_LIMIT,
            (exists|ms: Seq<Direction>| apply_moves(puzzle_state@, ms) == Some(goal_seq()))
                && valid_state(puzzle_state@) && old(self).expansion_limit
                >= COMPLETE_SEARCH_LIMIT ==> (r is Ok),
    {
        self.is_ending_node_reached = false;
        self.ending_node = None;
        self.expansions_used = 0;
        if !is_valid_state(puzzle_state) {
            return Err(SolveError::MalformedInput);
        }
        let limit: usize = if self.expansion_limit > EXPANSION_LIMIT_CAP {
            EXPANSION_LIMIT_CAP
        } else {
            self.expansion_limit
        };
        let root = Node::new(clone_state(puzzle_state));
        if root.is_ending_node {
            self.is_ending_node_reached = true;
            let final_state = clone_state(&root.puzzle_state);
            self.ending_node = Some(root);
            return Ok(SolvedState::new(final_state, Vec::new()));
        }
        assert(puzzle_state@ != goal_seq());
        let ghost init = puzzle_state@;
        let mut arena: Vec<Node> = Vec::new();
        arena.push(root);
        let mut open: Vec<usize> = Vec::new();
        open.push(0);
        proof {
            assert(open@[0] == 0usize);
            assert(in_open(open@, 0));
            assert forall|i: int, d: Direction|
                0 <= i < arena@.len() && !in_open(open@, i) implies #[trigger] successor_covered(
                arena@,
                i,
                d,
            ) by {
                assert(i == 0);
                assert(false);
            }
            assert forall|i: int| 0 <= i < arena@.len() implies (#[trigger] arena@[i]).puzzle_state@
                != goal_seq() by {
                assert(i == 0);
            }
        }
        let mut expansions: usize = 0;
        let mut goal_found: Option<Node> = None;
        while goal_found.is_none() && open.len() > 0 && expansions < limit
            invariant
                valid_state(init),
                wf_arena(arena@, init),
                distinct_states(arena@),
                forall|t: int| 0 <= t < open@.len() ==> (#[trigger] open@[t]) < arena@.len(),
                forall|i: int| 0 <= i < arena@.len() ==> (#[trigger] arena@[i]).length <= expansions,
                expansions <= limit,
                limit <= EXPANSION_LIMIT_CAP,
                goal_found matches Some(g) ==> goal_ok(g, arena@),
                expansions + open@.len() <= arena@.len(),
                distinct_indices(open@),
                no_goal_in(arena@),
                goal_found is None ==> (forall|i: int, d: Direction|
                    0 <= i < arena@.len() && !in_open(open@, i)
                        ==> #[trigger] successor_covered(arena@, i, d)),
            decreases limit - expansions,
        {
            let best = select_min(&arena, &open);
            let ghost old_open = open@;
            let chosen: usize = open.swap_remove(best);
            proof {
                assert forall|t: int| 0 <= t < open@.len() implies (#[trigger] open@[t])
                    < arena@.len() by {
                    if t == best as int {
                        assert(open@[t] == old_open[old_open.len() - 1]);
                    } else {
                        assert(open@[t] == old_open[t]);
                    }
                }
                lemma_swap_remove_open(old_open, open@, best as int);
                assert forall|i: int, d: Direction|
                    0 <= i < arena@.len() && i != chosen && !in_open(open@, i) implies #[trigger] successor_covered(
                    arena@,
                    i,
                    d,
                ) by {
                    if in_open(old_open, i) {
                        assert(in_open(open@, i));
                        assert(false);
                    }
                }
            }
            expansions += 1;
            let children = get_possible_nodes(&arena[chosen], chosen);
            let mut ci: usize = 0;
            while ci < children.len() && goal_found.is_none()
                invariant
                    valid_state(init),
                    wf_arena(arena@, init),
                    distinct_states(arena@),
                    forall|t: int| 0 <= t < open@.len() ==> (#[trigger] open@[t]) < arena@.len(),
                    forall|i: int|
                        0 <= i < arena@.len() ==> (#[trigger] arena@[i]).length <= expansions,
                    expansions <= limit,
                    limit <= EXPANSION_LIMIT_CAP,
                    goal_found matches Some(g) ==> goal_ok(g, arena@),
                    expansions + open@.len() <= arena@.len(),
                    chosen < arena@.len(),
                    arena@[chosen as int].length < expansions,
                    ci <= children@.len(),
                    forall|k: int|
                        0 <= k < children@.len() ==> child_ok(
                            #[trigger] children@[k],
                            arena@[chosen as int],
                            chosen,
                        ),
                    distinct_indices(open@),
                    no_goal_in(arena@),
                    !in_open(open@, chosen as int),
                    goal_found is None ==> (forall|i: int, d: Direction|
                        0 <= i < arena@.len() && i != chosen && !in_open(open@, i)
                            ==> #[trigger] successor_covered(arena@, i, d)),
                    goal_found is None ==> (forall|k: int|
                        0 <= k < ci ==> exists|j: int|
                            0 <= j < arena@.len() && (#[trigger] arena@[j]).puzzle_state@
                                == (#[trigger] children@[k]).puzzle_state@),
                    forall|d: Direction|
                        allowed_direction(arena@[chosen as int].direction, d)
                            && #[trigger] move_legal(
                            blank_of(arena@[chosen as int].puzzle_state@),
                            d,
                        ) ==> exists|k: int|
                            0 <= k < children@.len() && (#[trigger] children@[k]).direction
                                == Some(d),
                decreases children@.len() - ci,
            {
                if children[ci].is_ending_node {
                    let g = clone_node(&children[ci]);
                    proof {
                        assert(child_ok(g, arena@[chosen as int], chosen));
                        assert(goal_ok(g, arena@));
                    }
                    goal_found = Some(g);
                } else {
                    if !contains_state(&arena, &children[ci].puzzle_state) {
                        let node = clone_node(&children[ci]);
                        let ghost pushed = node;
                        let ghost old_arena = arena@;
                        arena.push(node);
                        let ghost old_open2 = open@;
                        open.push(arena.len() - 1);
                        proof {
                            assert(child_ok(pushed, old_arena[chosen as int], chosen));
                            lemma_arena_push(old_arena, init, pushed, chosen);
                            assert(arena@ == old_arena.push(pushed));
                            assert(arena@[chosen as int] == old_arena[chosen as int]);
                            assert(open@ == old_open2.push((arena@.len() - 1) as usize));
                            assert(open@[open@.len() - 1] == old_arena.len());
                            assert forall|t1: int, t2: int|
                                #![trigger open@[t1], open@[t2]]
                                0 <= t1 < t2 < open@.len() implies open@[t1] != open@[t2] by {
                                if t2 == open@.len() - 1 {
                                    assert(open@[t1] == old_open2[t1]);
                                    assert(old_open2[t1] < old_arena.len());
                                } else {
                                    assert(open@[t1] == old_open2[t1]);
                                    assert(open@[t2] == old_open2[t2]);
                                }
                            }
                            assert(!in_open(open@, chosen as int)) by {
                                if in_open(open@, chosen as int) {
                                    let t = choose|t: int|
                                        0 <= t < open@.len() && open@[t] == chosen as int;
                                    if t < open@.len() - 1 {
                                        assert(old_open2[t] == chosen);
                                        assert(in_open(old_open2, chosen as int));
                                    }
                                }
                            }
                            assert forall|i: int| 0 <= i < arena@.len() implies (
                            #[trigger] arena@[i]).puzzle_state@ != goal_seq() by {
                                if i < old_arena.len() {
                                    assert(arena@[i] == old_arena[i]);
                                } else {
                                    assert(arena@[i] == pushed);
                                    assert(!pushed.is_ending_node);
                                }
                            }
                            assert forall|i: int, d: Direction|
                                0 <= i < arena@.len() && i != chosen && !in_open(open@, i) implies #[trigger] successor_covered(
                                arena@,
                                i,
                                d,
                            ) by {
                                if i == old_arena.len() as int {
                                    assert(in_open(open@, i));
                                    assert(false);
                                }
                                if in_open(old_open2, i) {
                                    let t = choose|t: int|
                                        0 <= t < old_open2.len() && old_open2[t] == i;
                                    assert(open@[t] == i);
                                    assert(in_open(open@, i));
                                    assert(false);
                                }
                                assert(successor_covered(old_arena, i, d));
                                assert(arena@[i] == old_arena[i]);
                                match apply_move(old_arena[i].puzzle_state@, d) {
                                    Some(t2) => {
                                        let j = choose|j: int|
                                            0 <= j < old_arena.len() && (
                                            #[trigger] old_arena[j]).puzzle_state@ == t2;
                                        assert(arena@[j] == old_arena[j]);
                                    },
                                    None => {},
                                }
                            }
                            assert forall|k: int| 0 <= k < ci + 1 implies exists|j: int|
                                0 <= j < arena@.len() && (#[trigger] arena@[j]).puzzle_state@
                                    == (#[trigger] children@[k]).puzzle_state@ by {
                                if k < ci {
                                    let j = choose|j: int|
                                        0 <= j < old_arena.len() && (
                                        #[trigger] old_arena[j]).puzzle_state@
                                            == children@[k].puzzle_state@;
                                    assert(arena@[j] == old_arena[j]);
                                } else {
                                    assert(arena@[old_arena.len() as int] == pushed);
                                    assert(pushed.puzzle_state@ == children@[k].puzzle_state@);
                                }
                            }
                        }
                    }
                }
                ci += 1;
            }
            proof {
                if goal_found is None {
                    assert forall|i: int, d: Direction|
                        0 <= i < arena@.len() && !in_open(open@, i) implies #[trigger] successor_covered(
                        arena@,
                        i,
                        d,
                    ) by {
                        if i == chosen as int {
                            let cs = arena@[chosen as int].puzzle_state@;
                            match apply_move(cs, d) {
                                Some(t2) => {
                                    assert(move_legal(blank_of(cs), d));
                                    if allowed_direction(arena@[chosen as int].direction, d) {
                                        let k = choose|k: int|
                                            0 <= k < children@.len() && (
                                            #[trigger] children@[k]).direction == Some(d);
                                        assert(child_ok(
                                            children@[k],
                                            arena@[chosen as int],
                                            chosen,
                                        ));
                                        assert(children@[k].puzzle_state@ == t2);
                                        assert(exists|j: int|
                                            0 <= j < arena@.len() && (
                                            #[trigger] arena@[j]).puzzle_state@
                                                == children@[k].puzzle_state@);
                                    } else {
                                        if chosen == 0 {
                                            assert(arena@[0].direction is None);
                                            assert(false);
                                        }
                                        assert(wf_link(arena@, chosen as int));
                                        let dir = arena@[chosen as int].direction->Some_0;
                                        let pp = arena@[chosen as int].parent_node->Some_0;
                                        assert(apply_move(arena@[pp as int].puzzle_state@, dir)
                                            == Some(cs));
                                        lemma_apply_move_reverse(
                                            arena@[pp as int].puzzle_state@,
                                            dir,
                                            cs,
                                        );
                                        assert(d == opposite(dir));
                                        assert(arena@[pp as int].puzzle_state@ == t2);
                                    }
                                },
                                None => {},
                            }
                        }
                    }
                }
            }
        }
        self.expansions_used = expansions;
        match goal_found {
            Some(goal_node) => {
                let moves = reconstruct_moves(&arena, &goal_node, Ghost(init));
                let final_state = clone_state(&goal_node.puzzle_state);
                self.is_ending_node_reached = true;
                self.ending_node = Some(goal_node);
                Ok(SolvedState::new(final_state, moves))
            },
            None => {
                if open.len() == 0 {
                    proof {
                        assert forall|ms: Seq<Direction>| apply_moves(init, ms) != Some(
                            goal_seq(),
                        ) by {
                            assert forall|i: int, d: Direction|
                                0 <= i < arena@.len() implies #[trigger] successor_covered(
                                arena@,
                                i,
                                d,
                            ) by {
                                assert(!in_open(open@, i));
                            }
                            assert(arena@[0].puzzle_state@ == init);
                            lemma_covered_set_unreachable(arena@, init, ms);
                        }
                    }
                    Err(SolveError::Unsolvable)
                } else {
                    proof {
                        reveal_with_fuel(pow9, 11);
                        assert(pow9(9) == 387420489);
                        lemma_distinct_states_bound(arena@);
                        assert(arena@.len() > limit);
                        assert(limit < COMPLETE_SEARCH_LIMIT);
                    }
                    Err(SolveError::Aborted)
                }
            },
        }
    }
}

} // verus!
