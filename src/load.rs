//! The puzzle as stored: dials of optional rings whose lengths are not yet
//! known to be right, the structural check that turns it into a [`Puzzle`],
//! and the way back.

use vstd::prelude::*;
use crate::puzzle::{
    Dial, DialView, Puzzle, PuzzleView, Ring, RingView, ring_view, NUM_COLUMNS, NUM_DIALS,
    NUM_RINGS,
};

verus! {

/// A dial as stored: one optional ring per level, each ring of any length.
#[derive(Clone, Debug, PartialEq, Eq)]
pub struct RawDial {
    pub rings: [Option<Vec<Option<u32>>>; NUM_RINGS],
}

/// Why stored data is not a puzzle.
#[derive(Clone, Copy, Debug, PartialEq, Eq)]
pub enum LoadError {
    /// The number of dials is not five.
    WrongDialCount { found: usize },
    /// A present ring does not have one slot per column.
    WrongRingLength { dial: usize, ring: usize, found: usize },
}

pub open spec fn raw_ring_view(r: Option<Vec<Option<u32>>>) -> Option<RingView> {
    match r {
        Some(v) => Some(v@),
        None => None,
    }
}

pub open spec fn raw_dial_view(d: RawDial) -> DialView {
    d.rings@.map_values(|r: Option<Vec<Option<u32>>>| raw_ring_view(r))
}

/// The mathematical form of stored dials, read as a puzzle.
pub open spec fn raw_puzzle_view(raw: Seq<RawDial>) -> PuzzleView {
    raw.map_values(|d: RawDial| raw_dial_view(d))
}

/// Ring `ring` of stored dial `dial` is absent or has one slot per column.
pub open spec fn raw_ring_ok(raw: Seq<RawDial>, dial: int, ring: int) -> bool {
    match raw[dial].rings@[ring] {
        Some(v) => v@.len() == NUM_COLUMNS,
        None => true,
    }
}

/// Stored data that is a puzzle: five dials, every present ring of twelve slots.
pub open spec fn raw_accepted(raw: Seq<RawDial>) -> bool {
    &&& raw.len() == NUM_DIALS
    &&& forall|d: int, r: int|
        0 <= d < NUM_DIALS && 0 <= r < NUM_RINGS ==> #[trigger] raw_ring_ok(raw, d, r)
}

/// Copies a ring of the right length into its fixed-size form.
fn ring_from(v: &Vec<Option<u32>>) -> (r: Ring)
    requires
        v@.len() == NUM_COLUMNS,
    ensures
        r@ == v@,
{
    let mut r: Ring = [None; NUM_COLUMNS];
    let mut c: usize = 0;
    while c < NUM_COLUMNS
        invariant
            0 <= c <= NUM_COLUMNS,
            v@.len() == NUM_COLUMNS,
            forall|j: int| 0 <= j < c ==> r@[j] == v@[j],
        decreases NUM_COLUMNS - c,
    {
        r[c] = v[c];
        c = c + 1;
    }
    assert(r@ =~= v@);
    r
}

/// Checks the shape of stored dials and builds the puzzle from them.
///
/// `WrongDialCount` comes exactly when there are not five dials. Otherwise
/// `WrongRingLength` names the first present ring, dial by dial and level by
/// level, whose length is not twelve. With neither, the puzzle holds the
/// stored slots as they are.
pub fn verify(raw: &Vec<RawDial>) -> (r: Result<Puzzle, LoadError>)
    ensures
        r is Ok <==> raw_accepted(raw@),
        match r {
            Ok(p) => p@ == raw_puzzle_view(raw@),
            Err(LoadError::WrongDialCount { found }) => raw@.len() != NUM_DIALS && found == raw@.len(),
            Err(LoadError::WrongRingLength { dial, ring, found }) => {
                &&& raw@.len() == NUM_DIALS
                &&& dial < NUM_DIALS
                &&& ring < NUM_RINGS
                &&& raw@[dial as int].rings@[ring as int] is Some
                &&& raw@[dial as int].rings@[ring as int].unwrap()@.len() == found
                &&& found != NUM_COLUMNS
                &&& forall|d: int, k: int|
                    0 <= d < NUM_DIALS && 0 <= k < NUM_RINGS && (d < dial || (d == dial && k
                        < ring)) ==> #[trigger] raw_ring_ok(raw@, d, k)
            },
        },
{
    if raw.len() != NUM_DIALS {
        return Err(LoadError::WrongDialCount { found: raw.len() });
    }
    let empty = Dial { rings: [None; NUM_RINGS] };
    let mut dials: [Dial; NUM_DIALS] = [empty; NUM_DIALS];
    let mut d: usize = 0;
    while d < NUM_DIALS
        invariant
            0 <= d <= NUM_DIALS,
            raw@.len() == NUM_DIALS,
            forall|i: int, k: int|
                0 <= i < d && 0 <= k < NUM_RINGS ==> #[trigger] raw_ring_ok(raw@, i, k),
            forall|i: int| 0 <= i < d ==> #[trigger] dials@[i]@ == raw_dial_view(raw@[i]),
        decreases NUM_DIALS - d,
    {
        let mut rings: [Option<Ring>; NUM_RINGS] = [None; NUM_RINGS];
        let mut k: usize = 0;
        while k < NUM_RINGS
            invariant
                0 <= d < NUM_DIALS,
                0 <= k <= NUM_RINGS,
                raw@.len() == NUM_DIALS,
                forall|i: int, j: int|
                    0 <= i < d && 0 <= j < NUM_RINGS ==> #[trigger] raw_ring_ok(raw@, i, j),
                forall|j: int| 0 <= j < k ==> #[trigger] raw_ring_ok(raw@, d as int, j),
                forall|j: int|
                    0 <= j < k ==> #[trigger] ring_view(rings@[j]) == raw_ring_view(
                        raw@[d as int].rings@[j],
                    ),
                forall|j: int| k <= j < NUM_RINGS ==> #[trigger] rings@[j] is None,
            decreases NUM_RINGS - k,
        {
            match &raw[d].rings[k] {
                Some(v) => {
                    if v.len() != NUM_COLUMNS {
                        assert(!raw_ring_ok(raw@, d as int, k as int));
                        return Err(LoadError::WrongRingLength { dial: d, ring: k, found: v.len() });
                    }
                    rings[k] = Some(ring_from(v));
                },
                None => {},
            }
            k = k + 1;
        }
        dials[d] = Dial { rings };
        assert(dials@[d as int]@ =~= raw_dial_view(raw@[d as int]));
        d = d + 1;
    }
    let p = Puzzle { dials };
    assert(p@ =~= raw_puzzle_view(raw@));
    Ok(p)
}

/// The stored form of a puzzle, for writing it back out.
pub fn to_raw(puzzle: &Puzzle) -> (r: Vec<RawDial>)
    ensures
        raw_puzzle_view(r@) == puzzle@,
{
    let mut out: Vec<RawDial> = Vec::new();
    let mut d: usize = 0;
    while d < NUM_DIALS
        invariant
            0 <= d <= NUM_DIALS,
            out@.len() == d,
            forall|i: int| 0 <= i < d ==> #[trigger] raw_dial_view(out@[i]) == puzzle@[i],
        decreases NUM_DIALS - d,
    {
        let dial = puzzle.dials[d];
        let mut rings: [Option<Vec<Option<u32>>>; NUM_RINGS] = [None, None, None, None];
        let mut k: usize = 0;
        while k < NUM_RINGS
            invariant
                0 <= k <= NUM_RINGS,
                d < NUM_DIALS,
                dial == puzzle.dials@[d as int],
                forall|j: int|
                    0 <= j < k ==> #[trigger] raw_ring_view(rings@[j]) == ring_view(dial.rings@[j]),
                forall|j: int| k <= j < NUM_RINGS ==> #[trigger] rings@[j] is None,
            decreases NUM_RINGS - k,
        {
            match dial.rings[k] {
                Some(ring) => {
                    let mut v: Vec<Option<u32>> = Vec::new();
                    let mut c: usize = 0;
                    while c < NUM_COLUMNS
                        invariant
                            0 <= c <= NUM_COLUMNS,
                            v@ == ring@.subrange(0, c as int),
                        decreases NUM_COLUMNS - c,
                    {
                        v.push(ring[c]);
                        c = c + 1;
                        assert(v@ =~= ring@.subrange(0, c as int));
                    }
                    assert(v@ =~= ring@);
                    rings[k] = Some(v);
                },
                None => {},
            }
            k = k + 1;
        }
        out.push(RawDial { rings });
        assert(raw_dial_view(out@[d as int]) =~= puzzle@[d as int]);
        d = d + 1;
    }
    assert(raw_puzzle_view(out@) =~= puzzle@);
    out
}

/// Two puzzles with the same view are the same value.
pub proof fn lemma_view_injective(p: Puzzle, q: Puzzle)
    requires
        p@ == q@,
    ensures
        p == q,
{
    assert forall|d: int| 0 <= d < NUM_DIALS implies p.dials@[d] == q.dials@[d] by {
        let a = p.dials@[d];
        let b = q.dials@[d];
        assert(p@[d] == a@ && q@[d] == b@);
        assert forall|k: int| 0 <= k < NUM_RINGS implies a.rings@[k] == b.rings@[k] by {
            assert(a@[k] == b@[k]);
            match (a.rings@[k], b.rings@[k]) {
                (Some(x), Some(y)) => {
                    assert(x =~= y);
                },
                _ => {},
            }
        }
        assert(a.rings =~= b.rings);
    }
    assert(p.dials =~= q.dials);
}

/// Round trip: the stored form of a puzzle passes the structural check, and
/// the puzzle that `verify` builds from it is the puzzle itself.
pub proof fn lemma_round_trip(p: Puzzle, raw: Seq<RawDial>, q: Puzzle)
    requires
        raw_puzzle_view(raw) == p@,
        q@ == raw_puzzle_view(raw),
    ensures
        raw_accepted(raw),
        q == p,
{
    crate::puzzle::lemma_puzzle_wf(p);
    assert forall|d: int, r: int| 0 <= d < NUM_DIALS && 0 <= r < NUM_RINGS implies #[trigger] raw_ring_ok(
        raw,
        d,
        r,
    ) by {
        assert(raw_dial_view(raw[d]) == p@[d]);
        assert(raw_dial_view(raw[d])[r] == raw_ring_view(raw[d].rings@[r]));
    }
    lemma_view_injective(p, q);
}

} // verus!
