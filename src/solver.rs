//! Exhaustive search over the rotations of the movable dials.
//!
//! The offsets of the movable dials form an odometer in base twelve: dial 0
//! turns fastest, and a dial advances by one each time the dial before it
//! completes a full turn. The puzzle is checked before every advance, so the
//! first solution found is the one of least rank in that order.

use vstd::prelude::*;
use vstd::arithmetic::div_mod::{lemma_fundamental_div_mod, lemma_fundamental_div_mod_converse};
use crate::puzzle::{
    Puzzle, PuzzleView, NUM_COLUMNS, NUM_DIALS, rotate_dial_once, rotate_dial_times, solved,
    puzzle_wf, validate, lemma_dial_full_cycle, lemma_puzzle_wf,
};

verus! {

/// The dials before the base; the last dial never turns.
pub const NUM_MOVABLE: usize = 4;

/// Number of offset tuples of the movable dials, twelve to the fourth.
pub const NUM_CONFIGURATIONS: u32 = 20736;

/// `n` divided by twelve, `j` times over.
pub open spec fn quot(n: int, j: nat) -> int
    decreases j,
{
    if j == 0 {
        n
    } else {
        quot(n, (j - 1) as nat) / 12
    }
}

/// Digit `j` of `n` in base twelve, digit 0 the least significant.
pub open spec fn digit(n: int, j: int) -> int {
    quot(n, j as nat) % 12
}

/// The offsets of the movable dials at step `n` of the odometer.
pub open spec fn odometer(n: int) -> Seq<int> {
    Seq::new(NUM_MOVABLE as nat, |j: int| digit(n, j))
}

/// An offset tuple: one rotation count in `0..12` per movable dial.
pub open spec fn offsets_wf(o: Seq<int>) -> bool {
    &&& o.len() == NUM_MOVABLE
    &&& forall|j: int| 0 <= j < NUM_MOVABLE ==> 0 <= #[trigger] o[j] < NUM_COLUMNS
}

/// The step at which the odometer shows the tuple `o`.
pub open spec fn rank(o: Seq<int>) -> int {
    o[0] + 12 * (o[1] + 12 * (o[2] + 12 * o[3]))
}

/// The puzzle with movable dial `d` rotated `o[d]` times; the base stays put.
pub open spec fn rotated(p: PuzzleView, o: Seq<int>) -> PuzzleView {
    Seq::new(
        p.len(),
        |d: int|
            if d < NUM_MOVABLE {
                rotate_dial_times(p[d], o[d] as nat)
            } else {
                p[d]
            },
    )
}

/// The puzzle is solved at step `n` of the odometer.
pub open spec fn solved_at(p: PuzzleView, n: int) -> bool {
    solved(rotated(p, odometer(n)))
}

/// `o` solves the puzzle, and no tuple of smaller rank does.
pub open spec fn first_solution(p: PuzzleView, o: Seq<int>) -> bool {
    &&& offsets_wf(o)
    &&& solved(rotated(p, o))
    &&& forall|o2: Seq<int>|
        offsets_wf(o2) && #[trigger] rank(o2) < rank(o) ==> !solved(rotated(p, o2))
}

/// The offsets held by the search, as integers.
pub open spec fn offsets_view(o: [usize; NUM_MOVABLE]) -> Seq<int> {
    o@.map_values(|x: usize| x as int)
}

proof fn lemma_quot_nonneg(n: int, j: nat)
    requires
        0 <= n,
    ensures
        0 <= quot(n, j),
    decreases j,
{
    if j > 0 {
        lemma_quot_nonneg(n, (j - 1) as nat);
    }
}

/// Adding one to `n` adds one to each quotient up to the first digit below 11.
proof fn lemma_quot_succ(n: int, j: nat)
    requires
        0 <= n,
        forall|i: int| 0 <= i < j ==> #[trigger] digit(n, i) == 11,
    ensures
        quot(n + 1, j) == quot(n, j) + 1,
    decreases j,
{
    if j > 0 {
        lemma_quot_succ(n, (j - 1) as nat);
        assert(digit(n, j - 1) == 11);
        lemma_quot_nonneg(n, (j - 1) as nat);
    }
}

proof fn lemma_quot_same(n: int, d: nat, j: nat)
    requires
        0 <= n,
        d < j,
        quot(n + 1, (d + 1) as nat) == quot(n, (d + 1) as nat),
    ensures
        quot(n + 1, j) == quot(n, j),
    decreases j,
{
    if j > d + 1 {
        lemma_quot_same(n, d, (j - 1) as nat);
    }
}

/// How the odometer advances: the digits equal to 11 below `d` wrap to 0,
/// digit `d` goes up by one, and the higher digits stay.
proof fn lemma_carry(n: int, d: int)
    requires
        0 <= n,
        0 <= d < NUM_MOVABLE,
        forall|i: int| 0 <= i < d ==> #[trigger] digit(n, i) == 11,
        digit(n, d) < 11,
    ensures
        forall|i: int| 0 <= i < d ==> #[trigger] digit(n + 1, i) == 0,
        digit(n + 1, d) == digit(n, d) + 1,
        forall|i: int| d < i < NUM_MOVABLE ==> #[trigger] digit(n + 1, i) == digit(n, i),
{
    lemma_quot_succ(n, d as nat);
    lemma_quot_nonneg(n, d as nat);
    assert forall|i: int| 0 <= i < d implies #[trigger] digit(n + 1, i) == 0 by {
        assert(digit(n, i) == 11);
        lemma_quot_succ(n, i as nat);
        lemma_quot_nonneg(n, i as nat);
    }
    assert(quot(n + 1, (d + 1) as nat) == quot(n, (d + 1) as nat));
    assert forall|i: int| d < i < NUM_MOVABLE implies #[trigger] digit(n + 1, i) == digit(n, i) by {
        lemma_quot_same(n, d as nat, i as nat);
    }
}

/// One level of the base-twelve expansion of `n`.
proof fn lemma_quot_step(n: int, j: nat)
    requires
        0 <= n,
    ensures
        quot(n, j) == 12 * quot(n, j + 1) + digit(n, j as int),
        0 <= digit(n, j as int) < 12,
        0 <= quot(n, j + 1),
{
    lemma_quot_nonneg(n, j);
    lemma_quot_nonneg(n, j + 1);
    lemma_fundamental_div_mod(quot(n, j), 12);
}

/// Every step below the last has a four-digit expansion.
proof fn lemma_expansion(n: int)
    requires
        0 <= n < NUM_CONFIGURATIONS,
    ensures
        quot(n, 4) == 0,
        n == digit(n, 0) + 12 * (digit(n, 1) + 12 * (digit(n, 2) + 12 * digit(n, 3))),
{
    lemma_quot_step(n, 0);
    lemma_quot_step(n, 1);
    lemma_quot_step(n, 2);
    lemma_quot_step(n, 3);
}

/// All four digits are 11 only at the last step.
proof fn lemma_last_step(n: int)
    requires
        0 <= n < NUM_CONFIGURATIONS,
        forall|i: int| 0 <= i < NUM_MOVABLE ==> #[trigger] digit(n, i) == 11,
    ensures
        n + 1 == NUM_CONFIGURATIONS,
{
    lemma_expansion(n);
    assert(digit(n, 0) == 11 && digit(n, 1) == 11 && digit(n, 2) == 11 && digit(n, 3) == 11);
}

/// Every step shows a valid tuple.
proof fn lemma_odometer_wf(n: int)
    requires
        0 <= n,
    ensures
        offsets_wf(odometer(n)),
{
    assert forall|j: int| 0 <= j < NUM_MOVABLE implies 0 <= #[trigger] odometer(n)[j]
        < NUM_COLUMNS by {
        lemma_quot_step(n, j as nat);
    }
}

/// The odometer shows each tuple exactly at its rank.
pub proof fn lemma_odometer_rank(o: Seq<int>)
    requires
        offsets_wf(o),
    ensures
        odometer(rank(o)) == o,
        0 <= rank(o) < NUM_CONFIGURATIONS,
{
    let n = rank(o);
    assert(0 <= o[0] < 12 && 0 <= o[1] < 12 && 0 <= o[2] < 12 && 0 <= o[3] < 12);
    let q3 = o[3];
    let q2 = o[2] + 12 * q3;
    let q1 = o[1] + 12 * q2;
    lemma_fundamental_div_mod_converse(n, 12, q1, o[0]);
    lemma_fundamental_div_mod_converse(q1, 12, q2, o[1]);
    lemma_fundamental_div_mod_converse(q2, 12, q3, o[2]);
    lemma_fundamental_div_mod_converse(q3, 12, 0, o[3]);
    assert(quot(n, 0) == n);
    assert(quot(n, 1) == q1);
    assert(quot(n, 2) == q2);
    assert(quot(n, 3) == q3);
    assert(odometer(n) =~= o);
}

/// Each step below the last is the rank of the tuple it shows.
pub proof fn lemma_rank_odometer(n: int)
    requires
        0 <= n < NUM_CONFIGURATIONS,
    ensures
        rank(odometer(n)) == n,
{
    lemma_expansion(n);
}

/// Why a search ends without a solution.
#[derive(Clone, Copy, Debug, PartialEq, Eq)]
pub enum SolveError {
    /// No tuple of offsets of the movable dials solves the puzzle.
    NoSolution,
}

/// Rotates dial `d` of the puzzle once.
fn rotate_dial(puzzle: &mut Puzzle, d: usize)
    requires
        d < NUM_DIALS,
    ensures
        final(puzzle)@ == old(puzzle)@.update(d as int, rotate_dial_once(old(puzzle)@[d as int])),
{
    let mut dial = puzzle.dials[d];
    dial.rotate();
    puzzle.dials[d] = dial;
    assert(puzzle@ =~= old(puzzle)@.update(d as int, rotate_dial_once(old(puzzle)@[d as int])));
}

/// Runs the odometer over the offsets of the movable dials, checking the
/// puzzle before each advance, and stops at the first solved state.
///
/// Returns the offsets found, if any, and the number of checks made. On
/// success the puzzle is left in the solved rotation; when the search is
/// exhausted every dial has made whole turns and the puzzle is as it was.
pub fn search(puzzle: &mut Puzzle) -> (r: (Option<[usize; NUM_MOVABLE]>, u32))
    ensures
        match r.0 {
            Some(o) => {
                &&& 1 <= r.1 <= NUM_CONFIGURATIONS
                &&& offsets_view(o) == odometer(r.1 - 1)
                &&& solved_at(old(puzzle)@, r.1 - 1)
                &&& forall|m: int| 0 <= m < r.1 - 1 ==> !#[trigger] solved_at(old(puzzle)@, m)
                &&& final(puzzle)@ == rotated(old(puzzle)@, odometer(r.1 - 1))
            },
            None => {
                &&& r.1 == NUM_CONFIGURATIONS
                &&& forall|m: int|
                    0 <= m < NUM_CONFIGURATIONS ==> !#[trigger] solved_at(old(puzzle)@, m)
                &&& final(puzzle)@ == old(puzzle)@
            },
        },
{
    let ghost p0 = puzzle@;
    let mut offsets: [usize; NUM_MOVABLE] = [0usize; NUM_MOVABLE];
    let mut checks: u32 = 0;
    proof {
        lemma_puzzle_wf(*puzzle);
        lemma_expansion(0);
        lemma_odometer_wf(0);
        assert(offsets_view(offsets) =~= odometer(0));
        assert(rotated(p0, odometer(0)) =~= p0);
    }
    loop
        invariant
            checks < NUM_CONFIGURATIONS,
            puzzle_wf(p0),
            p0 == old(puzzle)@,
            offsets_view(offsets) == odometer(checks as int),
            puzzle@ == rotated(p0, odometer(checks as int)),
            forall|m: int| 0 <= m < checks ==> !#[trigger] solved_at(p0, m),
        decreases NUM_CONFIGURATIONS - checks,
    {
        if validate(puzzle) {
            return (Some(offsets), checks + 1);
        }
        let ghost n = checks as int;
        proof {
            lemma_odometer_wf(n);
            assert forall|i: int| 0 <= i < NUM_MOVABLE implies offsets@[i] as int == #[trigger] digit(
                n,
                i,
            ) by {
                assert(offsets_view(offsets)[i] == odometer(n)[i]);
            }
        }
        let mut d: usize = 0;
        while d < NUM_MOVABLE && offsets[d] == NUM_COLUMNS - 1
            invariant
                0 <= d <= NUM_MOVABLE,
                puzzle_wf(p0),
                offsets_wf(odometer(n)),
                forall|i: int| 0 <= i < d ==> #[trigger] digit(n, i) == 11,
                forall|i: int| 0 <= i < d ==> offsets@[i] == 0,
                forall|i: int| d <= i < NUM_MOVABLE ==> offsets@[i] as int == #[trigger] digit(n, i),
                puzzle@ == rotated(p0, offsets_view(offsets)),
            decreases NUM_MOVABLE - d,
        {
            assert(digit(n, d as int) == 11);
            rotate_dial(puzzle, d);
            offsets[d] = 0;
            proof {
                lemma_dial_full_cycle(p0[d as int]);
                assert(puzzle@ =~= rotated(p0, offsets_view(offsets)));
            }
            d = d + 1;
        }
        if d == NUM_MOVABLE {
            proof {
                lemma_last_step(n);
                assert(puzzle@ =~= p0);
            }
            return (None, checks + 1);
        }
        assert(offsets[d as int] as int == digit(n, d as int));
        assert(odometer(n)[d as int] == digit(n, d as int));
        proof {
            lemma_expansion(n);
            assert(0 <= odometer(n)[0] < 12 && 0 <= odometer(n)[1] < 12);
            assert(0 <= odometer(n)[2] < 12 && 0 <= odometer(n)[3] < 12);
        }
        rotate_dial(puzzle, d);
        offsets[d] = offsets[d] + 1;
        checks = checks + 1;
        proof {
            lemma_carry(n, d as int);
            assert(offsets_view(offsets) =~= odometer(checks as int));
            assert(puzzle@ =~= rotated(p0, odometer(checks as int)));
        }
    }
}

/// Solves the puzzle in place by exhaustive search.
///
/// On success the puzzle is left rotated to the solving tuple of least rank in
/// odometer order, and a copy of it is returned. `NoSolution` comes exactly
/// when no tuple of offsets solves the puzzle; the puzzle is then unchanged.
pub fn solve(puzzle: &mut Puzzle) -> (r: Result<Puzzle, SolveError>)
    ensures
        match r {
            Ok(s) => {
                &&& final(puzzle)@ == s@
                &&& exists|o: Seq<int>|
                    first_solution(old(puzzle)@, o) && s@ == #[trigger] rotated(old(puzzle)@, o)
            },
            Err(SolveError::NoSolution) => {
                &&& final(puzzle)@ == old(puzzle)@
                &&& forall|o: Seq<int>|
                    offsets_wf(o) ==> !#[trigger] solved(rotated(old(puzzle)@, o))
            },
        },
{
    let ghost p0 = puzzle@;
    let (found, checks) = search(puzzle);
    match found {
        Some(_) => {
            proof {
                let n = checks - 1;
                let o = odometer(n);
                lemma_odometer_wf(n);
                lemma_rank_odometer(n);
                assert forall|o2: Seq<int>|
                    offsets_wf(o2) && #[trigger] rank(o2) < rank(o) implies !solved(
                    rotated(p0, o2),
                ) by {
                    lemma_odometer_rank(o2);
                    assert(!solved_at(p0, rank(o2)));
                }
                assert(first_solution(p0, o));
            }
            Ok(*puzzle)
        },
        None => {
            proof {
                assert forall|o: Seq<int>| offsets_wf(o) implies !#[trigger] solved(
                    rotated(p0, o),
                ) by {
                    lemma_odometer_rank(o);
                    assert(!solved_at(p0, rank(o)));
                }
            }
            Err(SolveError::NoSolution)
        },
    }
}

} // verus!
