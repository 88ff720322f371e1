//! The melodic contour: which steps between notes count as moves, and
//! whether a contour is long enough to search with.

use vstd::prelude::*;
use crate::binary32::{Binary32, abs_bits, ge_bits};

verus! {

/// Bit pattern of 0.75: steps smaller than this many semitones are repeats.
pub const MIN_MOVE_BITS: u32 = 0x3f40_0000;

/// Moves a library query needs before its result can be trusted.
pub const MIN_USEFUL_MOVES: usize = 12;

/// Moves a learned-hum query needs before its result can be trusted.
pub const MIN_USEFUL_HUM_MOVES: usize = 5;

/// Fewest moves a query may have at all.
pub const MIN_QUERY_MOVES: usize = 4;

/// A step is a move when its size is at least 0.75 semitones, by the `>=`
/// of binary32 values (a NaN step is never a move).
pub open spec fn is_move(d: Binary32) -> bool {
    ge_bits(abs_bits(d.bits), MIN_MOVE_BITS)
}

/// The steps that are moves, in order.
pub open spec fn melody_moves_spec(steps: Seq<Binary32>) -> Seq<Binary32> {
    steps.filter(|d: Binary32| is_move(d))
}

/// Drops the steps that are repeated notes, keeping the order of the rest.
pub fn melody_moves(steps: &[Binary32]) -> (moves: Vec<Binary32>)
    ensures
        moves@ == melody_moves_spec(steps@),
{
    let limit = Binary32 { bits: MIN_MOVE_BITS };
    let mut moves: Vec<Binary32> = Vec::new();
    for i in 0..steps.len()
        invariant
            limit.bits == MIN_MOVE_BITS,
            moves@ == melody_moves_spec(steps@.subrange(0, i as int)),
    {
        proof {
            reveal_with_fuel(Seq::<_>::filter, 1);
            assert(steps@.subrange(0, i + 1).drop_last() =~= steps@.subrange(0, i as int));
        }
        let d = steps[i];
        if d.abs().ge(limit) {
            moves.push(d);
        }
    }
    assert(steps@.subrange(0, steps@.len() as int) =~= steps@);
    moves
}

/// How far a query contour can be trusted.
#[derive(Clone, Copy, Debug, PartialEq, Eq, Structural)]
pub enum QueryStrength {
    /// Fewer than `MIN_QUERY_MOVES` moves: no search is made.
    TooShort,
    /// Searchable, but shorter than the caller's useful length.
    Weak,
    /// At least the caller's useful length.
    Useful,
}

/// Grades a query of `moves` moves against the length `min_useful` that the
/// caller needs for a trustworthy result.
pub fn query_strength(moves: usize, min_useful: usize) -> (q: QueryStrength)
    ensures
        q == (if moves < MIN_QUERY_MOVES {
            QueryStrength::TooShort
        } else if moves < min_useful {
            QueryStrength::Weak
        } else {
            QueryStrength::Useful
        }),
{
    if moves < MIN_QUERY_MOVES {
        QueryStrength::TooShort
    } else if moves < min_useful {
        QueryStrength::Weak
    } else {
        QueryStrength::Useful
    }
}

} // verus!
