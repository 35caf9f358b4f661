use vstd::prelude::*;

use crate::board::check_solvability;
use crate::board::count_val;
use crate::board::create_array_with_increasing_value;
use crate::board::inversions;
use crate::board::lemma_count_index;
use crate::board::lemma_count_zero;
use crate::board::lemma_goal_valid;
use crate::board::lemma_goal_zero_inversions;
use crate::board::valid_state;
use rand::seq::SliceRandom;

verus! {

/// Bound on shuffle retries before falling back to the ascending arrangement.
pub const RETRY_LIMIT: usize = 1000000;

#[verifier::external_type_specification]
#[verifier::external_body]
pub struct ExThreadRng(rand::rngs::ThreadRng);

/// Relies on rand::rng: a handle to the thread-local generator. Nothing is
/// assumed of the values it will produce.
#[verifier::external_body]
fn fresh_rng() -> rand::rngs::ThreadRng {
    rand::rng()
}

/// Relies on rand's SliceRandom::shuffle for slices: a Fisher-Yates pass that
/// only swaps elements in place, so the vector afterwards has the same length
/// and holds each value exactly as often as before. Nothing is assumed about
/// the resulting order.
#[verifier::external_body]
fn shuffle_tiles(rng: &mut rand::rngs::ThreadRng, tiles: &mut Vec<i8>)
    ensures
        final(tiles)@.len() == old(tiles)@.len(),
        forall|v: i8| count_val(final(tiles)@, v) == count_val(old(tiles)@, v),
{
    tiles.as_mut_slice().shuffle(rng);
}

/// A reordering that keeps every value's count keeps the board valid.
proof fn lemma_same_counts_valid(s: Seq<i8>, t: Seq<i8>)
    requires
        valid_state(s),
        t.len() == s.len(),
        forall|v: i8| count_val(t, v) == count_val(s, v),
    ensures
        valid_state(t),
{
    assert forall|i: int| 0 <= i < t.len() implies 0 <= #[trigger] t[i] < 9 by {
        if !(0 <= t[i] < 9) {
            lemma_count_index(t, t[i], i);
            lemma_count_zero(s, t[i]);
        }
    }
}

/// Draws random permutations of `0 .. 9` until the parity precheck accepts
/// one: the result is a valid board whose inversion count is even.
pub fn create_puzzle_state() -> (r: Vec<i8>)
    ensures
        valid_state(r@),
        inversions(r@) % 2 == 0,
{
    let mut puzzle_state = create_array_with_increasing_value();
    proof {
        lemma_goal_valid();
    }
    let mut rng = fresh_rng();
    let ghost start = puzzle_state@;
    shuffle_tiles(&mut rng, &mut puzzle_state);
    proof {
        lemma_same_counts_valid(start, puzzle_state@);
    }
    let mut solvable = check_solvability(&puzzle_state);
    let mut attempts: usize = 0;
    while !solvable && attempts < RETRY_LIMIT
        invariant
            valid_state(puzzle_state@),
            solvable ==> inversions(puzzle_state@) % 2 == 0,
            attempts <= RETRY_LIMIT,
        decreases RETRY_LIMIT - attempts,
    {
        let ghost before = puzzle_state@;
        shuffle_tiles(&mut rng, &mut puzzle_state);
        proof {
            lemma_same_counts_valid(before, puzzle_state@);
        }
        solvable = check_solvability(&puzzle_state);
        attempts += 1;
    }
    if solvable {
        puzzle_state
    } else {
        // Half of all permutations pass the parity precheck, so this fallback
        // is all but unreachable; the ascending arrangement has no inversions.
        let g = create_array_with_increasing_value();
        proof {
            lemma_goal_valid();
            lemma_goal_zero_inversions();
        }
        g
    }
}

} // verus!
