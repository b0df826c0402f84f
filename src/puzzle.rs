//! The puzzle model: dials, rings, rotation and the occlusion rule.

use vstd::prelude::*;

verus! {

/// Number of angular positions shared by every ring.
pub const NUM_COLUMNS: usize = 12;

/// Number of concentric rings on a dial.
pub const NUM_RINGS: usize = 4;

/// Number of dials stacked in a puzzle; the last one is the fixed base.
pub const NUM_DIALS: usize = 5;

/// One ring: a slot per column, `None` for a hole.
pub type Ring = [Option<u32>; NUM_COLUMNS];

/// Mathematical form of a ring's slots.
pub type RingView = Seq<Option<u32>>;

/// Rotating a ring once moves its last slot to the front.
pub open spec fn rotate_once(s: RingView) -> RingView {
    seq![s.last()] + s.drop_last()
}

/// The slots of `s` after `n` single rotations.
pub open spec fn rotate_times(s: RingView, n: nat) -> RingView
    decreases n,
{
    if n == 0 {
        s
    } else {
        rotate_once(rotate_times(s, (n - 1) as nat))
    }
}

/// Rotates a ring once in place: the last slot becomes the first.
pub fn rotate_ring(ring: &mut Ring)
    ensures
        final(ring)@ == rotate_once(old(ring)@),
{
    let last = ring[NUM_COLUMNS - 1];
    let mut i: usize = NUM_COLUMNS - 1;
    while i > 0
        invariant
            0 <= i < NUM_COLUMNS,
            ring@.len() == NUM_COLUMNS,
            last == old(ring)@[NUM_COLUMNS - 1],
            forall|j: int| 0 <= j <= i ==> ring@[j] == old(ring)@[j],
            forall|j: int| i < j < NUM_COLUMNS ==> ring@[j] == old(ring)@[j - 1],
        decreases i,
    {
        ring[i] = ring[i - 1];
        i = i - 1;
    }
    ring[0] = last;
    assert(ring@ =~= rotate_once(old(ring)@));
}

/// A dial: up to four rings, `None` where the dial has no ring at that level.
#[derive(Clone, Copy, Debug, PartialEq, Eq)]
pub struct Dial {
    pub rings: [Option<Ring>; NUM_RINGS],
}

/// Mathematical form of a dial: one optional ring view per level.
pub type DialView = Seq<Option<RingView>>;

/// Mathematical form of a puzzle: one dial view per dial, top first.
pub type PuzzleView = Seq<DialView>;

pub open spec fn ring_view(r: Option<Ring>) -> Option<RingView> {
    match r {
        Some(a) => Some(a@),
        None => None,
    }
}

impl View for Dial {
    type V = DialView;

    open spec fn view(&self) -> DialView {
        self.rings@.map_values(|r: Option<Ring>| ring_view(r))
    }
}

/// Five stacked dials; earlier dials lie on top and occlude later ones.
#[derive(Clone, Copy, Debug, PartialEq, Eq)]
pub struct Puzzle {
    pub dials: [Dial; NUM_DIALS],
}

impl View for Puzzle {
    type V = PuzzleView;

    open spec fn view(&self) -> PuzzleView {
        self.dials@.map_values(|d: Dial| d@)
    }
}

/// Every ring of a dial rotated once; absent rings stay absent.
pub open spec fn rotate_dial_once(d: DialView) -> DialView {
    d.map_values(
        |r: Option<RingView>|
            match r {
                Some(s) => Some(rotate_once(s)),
                None => None,
            },
    )
}

/// A dial after `n` single rotations.
pub open spec fn rotate_dial_times(d: DialView, n: nat) -> DialView
    decreases n,
{
    if n == 0 {
        d
    } else {
        rotate_dial_once(rotate_dial_times(d, (n - 1) as nat))
    }
}

impl Dial {
    /// Rotates the dial by one column: every present ring shifts together.
    pub fn rotate(&mut self)
        ensures
            final(self)@ == rotate_dial_once(old(self)@),
    {
        let mut k: usize = 0;
        while k < NUM_RINGS
            invariant
                0 <= k <= NUM_RINGS,
                forall|j: int|
                    0 <= j < k ==> #[trigger] ring_view(self.rings@[j]) == rotate_dial_once(
                        old(self)@,
                    )[j],
                forall|j: int| k <= j < NUM_RINGS ==> #[trigger] self.rings@[j] == old(self).rings@[j],
            decreases NUM_RINGS - k,
        {
            match self.rings[k] {
                Some(r) => {
                    let mut r = r;
                    rotate_ring(&mut r);
                    self.rings[k] = Some(r);
                },
                None => {},
            }
            k = k + 1;
        }
        assert(self@ =~= rotate_dial_once(old(self)@));
    }
}

/// What shows at (`ring`, `col`) looking down from dial `d`: the first present
/// slot at or below it, or nothing if every dial from `d` on has a hole there.
pub open spec fn visible_from(p: PuzzleView, d: int, ring: int, col: int) -> Option<u32>
    decreases p.len() - d,
{
    if d < 0 || d >= p.len() {
        None
    } else {
        match p[d][ring] {
            Some(s) => match s[col] {
                Some(v) => Some(v),
                None => visible_from(p, d + 1, ring, col),
            },
            None => visible_from(p, d + 1, ring, col),
        }
    }
}

/// The visible value at (`ring`, `col`) of the whole stack.
pub open spec fn visible(p: PuzzleView, ring: int, col: int) -> Option<u32> {
    visible_from(p, 0, ring, col)
}

/// The visible value counted as a number: a cell where every dial has a hole counts 0.
pub open spec fn cell(p: PuzzleView, ring: int, col: int) -> int {
    match visible(p, ring, col) {
        Some(v) => v as int,
        None => 0,
    }
}

/// Sum of the visible values of one column over the four rings.
pub open spec fn column_sum(p: PuzzleView, col: int) -> int {
    cell(p, 0, col) + cell(p, 1, col) + cell(p, 2, col) + cell(p, 3, col)
}

/// The puzzle is solved when every column sums to the target.
pub open spec fn solved(p: PuzzleView) -> bool {
    forall|col: int| 0 <= col < NUM_COLUMNS ==> #[trigger] column_sum(p, col) == TARGET
}

/// The sum each column must reach.
pub const TARGET: u64 = 42;

/// The visible table: one row per ring, one value per column.
pub type Table = [[u32; NUM_COLUMNS]; NUM_RINGS];

/// A table's column sum.
pub open spec fn table_column_sum(t: Table, col: int) -> int {
    t@[0]@[col] as int + t@[1]@[col] as int + t@[2]@[col] as int + t@[3]@[col] as int
}

/// A table is solved when every column sums to the target.
pub open spec fn table_solved(t: Table) -> bool {
    forall|col: int| 0 <= col < NUM_COLUMNS ==> #[trigger] table_column_sum(t, col) == TARGET
}

/// The table of a puzzle holds each cell's visible value, 0 for none.
pub open spec fn is_table_of(t: Table, p: PuzzleView) -> bool {
    forall|ring: int, col: int|
        0 <= ring < NUM_RINGS && 0 <= col < NUM_COLUMNS ==> #[trigger] t@[ring]@[col] as int == cell(
            p,
            ring,
            col,
        )
}

/// The first present slot at (`ring`, `column`) scanning the dials from the top.
pub fn visible_value(puzzle: &Puzzle, ring: usize, column: usize) -> (r: Option<u32>)
    requires
        ring < NUM_RINGS,
        column < NUM_COLUMNS,
    ensures
        r == visible(puzzle@, ring as int, column as int),
{
    let mut d: usize = NUM_DIALS;
    let mut found: Option<u32> = None;
    while d > 0
        invariant
            0 <= d <= NUM_DIALS,
            ring < NUM_RINGS,
            column < NUM_COLUMNS,
            found == visible_from(puzzle@, d as int, ring as int, column as int),
        decreases d,
    {
        d = d - 1;
        match puzzle.dials[d].rings[ring] {
            Some(r) => match r[column] {
                Some(v) => {
                    found = Some(v);
                },
                None => {},
            },
            None => {},
        }
    }
    found
}

/// The visible table of a puzzle: each cell's visible value, 0 where all dials have a hole.
pub fn table(puzzle: &Puzzle) -> (t: Table)
    ensures
        is_table_of(t, puzzle@),
{
    let mut t: Table = [[0u32; NUM_COLUMNS]; NUM_RINGS];
    let mut ring: usize = 0;
    while ring < NUM_RINGS
        invariant
            0 <= ring <= NUM_RINGS,
            forall|i: int, c: int|
                0 <= i < ring && 0 <= c < NUM_COLUMNS ==> #[trigger] t@[i]@[c] as int == cell(
                    puzzle@,
                    i,
                    c,
                ),
        decreases NUM_RINGS - ring,
    {
        let mut row: [u32; NUM_COLUMNS] = [0u32; NUM_COLUMNS];
        let mut col: usize = 0;
        while col < NUM_COLUMNS
            invariant
                0 <= ring < NUM_RINGS,
                0 <= col <= NUM_COLUMNS,
                forall|c: int| 0 <= c < col ==> #[trigger] row@[c] as int == cell(puzzle@, ring as int, c),
            decreases NUM_COLUMNS - col,
        {
            row[col] = match visible_value(puzzle, ring, col) {
                Some(v) => v,
                None => 0,
            };
            col = col + 1;
        }
        t[ring] = row;
        ring = ring + 1;
    }
    t
}

/// Whether every column of the table sums to the target.
pub fn is_solved(t: &Table) -> (r: bool)
    ensures
        r == table_solved(*t),
{
    let mut col: usize = 0;
    while col < NUM_COLUMNS
        invariant
            0 <= col <= NUM_COLUMNS,
            forall|c: int| 0 <= c < col ==> #[trigger] table_column_sum(*t, c) == TARGET,
        decreases NUM_COLUMNS - col,
    {
        let sum: u64 = t[0][col] as u64 + t[1][col] as u64 + t[2][col] as u64 + t[3][col] as u64;
        assert(sum as int == table_column_sum(*t, col as int));
        if sum != TARGET {
            return false;
        }
        col = col + 1;
    }
    true
}

/// Whether the puzzle in its current rotation is solved.
pub fn validate(puzzle: &Puzzle) -> (r: bool)
    ensures
        r == solved(puzzle@),
{
    let t = table(puzzle);
    let r = is_solved(&t);
    assert forall|col: int| 0 <= col < NUM_COLUMNS implies #[trigger] table_column_sum(t, col)
        == #[trigger] column_sum(puzzle@, col) by {
        assert(t@[0]@[col] as int == cell(puzzle@, 0, col));
        assert(t@[1]@[col] as int == cell(puzzle@, 1, col));
        assert(t@[2]@[col] as int == cell(puzzle@, 2, col));
        assert(t@[3]@[col] as int == cell(puzzle@, 3, col));
    }
    if r {
        assert forall|col: int| 0 <= col < NUM_COLUMNS implies #[trigger] column_sum(puzzle@, col)
            == TARGET by {
            assert(table_column_sum(t, col) == TARGET);
        }
    } else {
        proof {
            if solved(puzzle@) {
                assert forall|col: int| 0 <= col < NUM_COLUMNS implies #[trigger] table_column_sum(
                t,
                col,
            ) == TARGET by {
                    assert(column_sum(puzzle@, col) == TARGET);
                }
            }
        }
    }
    r
}

/// The slots of `s` moved `k` columns onward, wrapping around.
pub open spec fn shift(s: RingView, k: int) -> RingView {
    Seq::new(s.len(), |c: int| s[(c - k) % (s.len() as int)])
}

/// Each present ring of a dial has one slot per column; a puzzle has four
/// levels per dial and five dials.
pub open spec fn dial_wf(d: DialView) -> bool {
    &&& d.len() == NUM_RINGS
    &&& forall|r: int|
        0 <= r < NUM_RINGS && (#[trigger] d[r]).is_some() ==> d[r].unwrap().len() == NUM_COLUMNS
}

pub open spec fn puzzle_wf(p: PuzzleView) -> bool {
    &&& p.len() == NUM_DIALS
    &&& forall|d: int| 0 <= d < NUM_DIALS ==> dial_wf(#[trigger] p[d])
}

/// The view of every puzzle value has the fixed shape.
pub proof fn lemma_puzzle_wf(p: Puzzle)
    ensures
        puzzle_wf(p@),
{
    assert forall|d: int| 0 <= d < NUM_DIALS implies dial_wf(#[trigger] p@[d]) by {
        let dial = p.dials@[d];
        assert forall|r: int| 0 <= r < NUM_RINGS && (#[trigger] p@[d][r]).is_some() implies p@[d][
            r
        ].unwrap().len() == NUM_COLUMNS by {
            let ring = dial.rings@[r].unwrap();
            assert(ring@.len() == NUM_COLUMNS);
        }
    }
}

proof fn lemma_rotate_times_is_shift(s: RingView, n: nat)
    requires
        s.len() == NUM_COLUMNS,
    ensures
        rotate_times(s, n) == shift(s, n as int),
    decreases n,
{
    if n == 0 {
        assert(shift(s, 0) =~= s);
    } else {
        lemma_rotate_times_is_shift(s, (n - 1) as nat);
        let prev = shift(s, n - 1);
        assert forall|c: int| 0 <= c < NUM_COLUMNS implies #[trigger] rotate_once(prev)[c] == shift(
            s,
            n as int,
        )[c] by {
            if c == 0 {
                assert((NUM_COLUMNS - 1 - (n - 1)) % 12 == (0 - n) % 12);
            } else {
                assert(rotate_once(prev)[c] == prev[c - 1]);
            }
        }
        assert(rotate_once(prev) =~= shift(s, n as int));
    }
}

/// Rotating a ring twelve times gives back its original slot order.
pub proof fn lemma_ring_full_cycle(s: RingView)
    requires
        s.len() == NUM_COLUMNS,
    ensures
        rotate_times(s, NUM_COLUMNS as nat) == s,
{
    lemma_rotate_times_is_shift(s, NUM_COLUMNS as nat);
    assert(shift(s, NUM_COLUMNS as int) =~= s);
}

proof fn lemma_dial_times_ringwise(d: DialView, n: nat)
    ensures
        rotate_dial_times(d, n) == d.map_values(
            |r: Option<RingView>|
                match r {
                    Some(s) => Some(rotate_times(s, n)),
                    None => None,
                },
        ),
    decreases n,
{
    let f = |r: Option<RingView>|
        match r {
            Some(s) => Some(rotate_times(s, n)),
            None => None,
        };
    if n == 0 {
        assert(d.map_values(f) =~= d);
    } else {
        lemma_dial_times_ringwise(d, (n - 1) as nat);
        assert(rotate_dial_times(d, n) =~= d.map_values(f));
    }
}

/// Rotating a dial twelve times gives back the same dial.
pub proof fn lemma_dial_full_cycle(d: DialView)
    requires
        dial_wf(d),
    ensures
        rotate_dial_times(d, NUM_COLUMNS as nat) == d,
{
    lemma_dial_times_ringwise(d, NUM_COLUMNS as nat);
    assert forall|r: int| 0 <= r < NUM_RINGS implies #[trigger] rotate_dial_times(
        d,
        NUM_COLUMNS as nat,
    )[r] == d[r] by {
        if d[r].is_some() {
            lemma_ring_full_cycle(d[r].unwrap());
        }
    }
    assert(rotate_dial_times(d, NUM_COLUMNS as nat) =~= d);
}

/// Whether a puzzle is solved does not change when any one dial makes a full
/// turn of twelve rotations.
pub proof fn lemma_solved_full_cycle(p: PuzzleView, d: int)
    requires
        puzzle_wf(p),
        0 <= d < NUM_DIALS,
    ensures
        solved(p.update(d, rotate_dial_times(p[d], NUM_COLUMNS as nat))) == solved(p),
{
    lemma_dial_full_cycle(p[d]);
    assert(p.update(d, rotate_dial_times(p[d], NUM_COLUMNS as nat)) =~= p);
}

proof fn lemma_occlusion_from(p: PuzzleView, q: PuzzleView, i: int, ring: int, col: int, d: int)
    requires
        p.len() == NUM_DIALS,
        q.len() == NUM_DIALS,
        0 <= d <= i < NUM_DIALS,
        forall|j: int| 0 <= j <= i ==> #[trigger] p[j] == q[j],
        p[i][ring].is_some(),
        p[i][ring].unwrap()[col].is_some(),
    ensures
        visible_from(p, d, ring, col) == visible_from(q, d, ring, col),
    decreases i - d,
{
    assert(p[d] == q[d]);
    if d < i {
        lemma_occlusion_from(p, q, i, ring, col, d + 1);
    }
}

/// Occlusion: once dial `i` shows a value at (`ring`, `col`), that value is
/// what is visible there whatever the dials beneath it hold or how they are
/// turned; `q` agrees with `p` on dials `0..=i` only.
pub proof fn lemma_occlusion(p: PuzzleView, q: PuzzleView, i: int, ring: int, col: int)
    requires
        puzzle_wf(p),
        puzzle_wf(q),
        0 <= i < NUM_DIALS,
        0 <= ring < NUM_RINGS,
        0 <= col < NUM_COLUMNS,
        forall|j: int| 0 <= j <= i ==> #[trigger] p[j] == q[j],
        p[i][ring].is_some(),
        p[i][ring].unwrap()[col].is_some(),
    ensures
        visible(p, ring, col) == visible(q, ring, col),
        visible(p, ring, col).is_some(),
{
    lemma_occlusion_from(p, q, i, ring, col, 0);
    lemma_visible_present(p, i, ring, col, 0);
}

proof fn lemma_visible_present(p: PuzzleView, i: int, ring: int, col: int, d: int)
    requires
        p.len() == NUM_DIALS,
        0 <= d <= i < NUM_DIALS,
        p[i][ring].is_some(),
        p[i][ring].unwrap()[col].is_some(),
    ensures
        visible_from(p, d, ring, col).is_some(),
    decreases i - d,
{
    if d < i {
        lemma_visible_present(p, i, ring, col, d + 1);
    }
}

} // verus!
