use dial_puzzle::load::{to_raw, verify, LoadError, RawDial};
use dial_puzzle::puzzle::{
    is_solved, rotate_ring, table, validate, visible_value, Dial, Puzzle, Ring,
};
use dial_puzzle::solver::{search, solve, SolveError, NUM_CONFIGURATIONS};

fn empty_dial() -> Dial {
    Dial { rings: [None; 4] }
}

fn full_ring(v: u32) -> Ring {
    [Some(v); 12]
}

fn numbered_ring() -> Ring {
    let mut r: Ring = [None; 12];
    for (i, slot) in r.iter_mut().enumerate() {
        *slot = Some(i as u32);
    }
    r
}

/// A puzzle whose base alone shows 10, 10, 11 and 11 on its rings.
fn identity_solved() -> Puzzle {
    let base = Dial {
        rings: [Some(full_ring(10)), Some(full_ring(10)), Some(full_ring(11)), Some(full_ring(11))],
    };
    Puzzle { dials: [empty_dial(), empty_dial(), empty_dial(), empty_dial(), base] }
}

/// Movable dial `j` has only ring `j`, with a hole at slot 0 over a base ring
/// that shows the right value only in column `target[j]`.
fn engineered(target: [usize; 4]) -> Puzzle {
    let values: [u32; 4] = [10, 10, 11, 11];
    let mut dials = [empty_dial(); 5];
    let mut base = empty_dial();
    for j in 0..4 {
        let mut ring = full_ring(values[j]);
        ring[0] = None;
        dials[j].rings[j] = Some(ring);
        let mut under = full_ring(values[j] + 1);
        under[target[j]] = Some(values[j]);
        base.rings[j] = Some(under);
    }
    dials[4] = base;
    Puzzle { dials }
}

fn raw_of(p: &Puzzle) -> Vec<RawDial> {
    to_raw(p)
}

#[test]
fn rotate_moves_last_slot_to_front() {
    let mut r = numbered_ring();
    rotate_ring(&mut r);
    assert_eq!(r[0], Some(11));
    assert_eq!(r[1], Some(0));
    assert_eq!(r[11], Some(10));
}

#[test]
fn rotating_a_ring_twelve_times_restores_it() {
    let original = numbered_ring();
    let mut r = original;
    for i in 0..12 {
        if i > 0 {
            assert_ne!(r, original);
        }
        rotate_ring(&mut r);
    }
    assert_eq!(r, original);
}

#[test]
fn dial_rotation_moves_rings_together_and_keeps_absent_rings() {
    let mut d = Dial { rings: [Some(numbered_ring()), None, Some(numbered_ring()), None] };
    d.rotate();
    assert_eq!(d.rings[0].unwrap()[0], Some(11));
    assert_eq!(d.rings[2].unwrap()[0], Some(11));
    assert_eq!(d.rings[1], None);
    assert_eq!(d.rings[3], None);
}

#[test]
fn visible_value_takes_first_present_slot() {
    let mut p = identity_solved();
    let mut top = [None; 12];
    top[5] = Some(7);
    p.dials[1].rings[2] = Some(top);
    assert_eq!(visible_value(&p, 2, 5), Some(7));
    assert_eq!(visible_value(&p, 2, 4), Some(11));
    assert_eq!(visible_value(&p, 0, 0), Some(10));
}

#[test]
fn visible_value_is_none_where_every_dial_has_a_hole() {
    let p = Puzzle { dials: [empty_dial(); 5] };
    assert_eq!(visible_value(&p, 3, 11), None);
    assert_eq!(table(&p), [[0u32; 12]; 4]);
}

#[test]
fn lower_dials_cannot_change_an_occluded_cell() {
    let mut p = engineered([3, 7, 0, 11]);
    let before = visible_value(&p, 1, 4);
    assert_eq!(before, Some(10));
    for _ in 0..5 {
        p.dials[4].rotate();
        p.dials[2].rotate();
    }
    p.dials[3].rings[1] = Some(full_ring(99));
    assert_eq!(visible_value(&p, 1, 4), before);
}

#[test]
fn table_holds_visible_values() {
    let p = engineered([0, 0, 0, 0]);
    let t = table(&p);
    assert_eq!(t[0], [10u32; 12]);
    assert_eq!(t[2], [11u32; 12]);
    let q = engineered([5, 0, 0, 0]);
    let t = table(&q);
    assert_eq!(t[0][0], 11);
    assert_eq!(t[0][5], 10);
    assert_eq!(t[0][6], 10);
}

#[test]
fn is_solved_checks_every_column() {
    let mut t = [[10u32; 12]; 4];
    t[2] = [11; 12];
    t[3] = [11; 12];
    assert!(is_solved(&t));
    t[0][11] = 9;
    assert!(!is_solved(&t));
}

#[test]
fn is_solved_does_not_wrap_large_values() {
    let mut t = [[0u32; 12]; 4];
    for c in 0..12 {
        t[0][c] = u32::MAX;
        t[1][c] = 43;
    }
    assert!(!is_solved(&t));
}

#[test]
fn validate_matches_table() {
    assert!(validate(&identity_solved()));
    assert!(!validate(&engineered([3, 7, 0, 11])));
    assert!(validate(&engineered([0, 0, 0, 0])));
}

#[test]
fn full_turn_of_any_dial_keeps_solvability() {
    for solved_start in [true, false] {
        let p = if solved_start { identity_solved() } else { engineered([1, 2, 3, 4]) };
        for d in 0..5 {
            let mut q = p;
            for _ in 0..12 {
                q.dials[d].rotate();
            }
            assert_eq!(q, p);
            assert_eq!(validate(&q), validate(&p));
        }
    }
}

#[test]
fn solver_finds_engineered_rotation() {
    let start = engineered([3, 7, 0, 11]);
    let mut p = start;
    let (found, checks) = search(&mut p);
    assert_eq!(found, Some([3, 7, 0, 11]));
    assert_eq!(checks, 3 + 7 * 12 + 11 * 1728 + 1);
    assert!(validate(&p));
    let mut q = start;
    let solved = solve(&mut q).unwrap();
    assert_eq!(solved, p);
    assert_eq!(q, p);
    assert_eq!(solved.dials[0].rings[0].unwrap()[3], None);
    assert_eq!(solved.dials[3].rings[3].unwrap()[11], None);
    assert_eq!(solved.dials[4], start.dials[4]);
}

#[test]
fn solver_prefers_earlier_solution() {
    // Dial 3 is empty, so every offset of it solves; the least rank uses 0.
    let mut p = engineered([3, 7, 0, 11]);
    p.dials[3] = empty_dial();
    p.dials[4].rings[3] = Some(full_ring(11));
    let (found, checks) = search(&mut p);
    assert_eq!(found, Some([3, 7, 0, 0]));
    assert_eq!(checks, 3 + 7 * 12 + 1);
}

#[test]
fn solver_succeeds_on_first_check_when_already_solved() {
    let mut p = identity_solved();
    let (found, checks) = search(&mut p);
    assert_eq!(found, Some([0, 0, 0, 0]));
    assert_eq!(checks, 1);
    assert_eq!(p, identity_solved());
    let mut q = engineered([0, 0, 0, 0]);
    assert_eq!(search(&mut q), (Some([0, 0, 0, 0]), 1));
}

#[test]
fn solver_reports_no_solution_after_every_check() {
    let mut start = identity_solved();
    let mut r = full_ring(10);
    r[0] = Some(50);
    start.dials[4].rings[0] = Some(r);
    start.dials[0].rings[1] = Some(numbered_ring());
    let mut p = start;
    let (found, checks) = search(&mut p);
    assert_eq!(found, None);
    assert_eq!(checks, NUM_CONFIGURATIONS);
    assert_eq!(checks, 20736);
    assert_eq!(p, start);
    let mut q = start;
    assert_eq!(solve(&mut q), Err(SolveError::NoSolution));
    assert_eq!(q, start);
}

#[test]
fn stored_form_round_trips() {
    let mut p = engineered([3, 7, 0, 11]);
    let _ = solve(&mut p);
    let raw = raw_of(&p);
    assert_eq!(raw.len(), 5);
    assert_eq!(raw[0].rings[1], None);
    assert_eq!(raw[0].rings[0].as_ref().unwrap().len(), 12);
    assert_eq!(verify(&raw), Ok(p));
}

#[test]
fn four_dials_are_rejected() {
    let mut raw = raw_of(&identity_solved());
    raw.remove(0);
    assert_eq!(verify(&raw), Err(LoadError::WrongDialCount { found: 4 }));
    let mut six = raw_of(&identity_solved());
    six.push(six[0].clone());
    assert_eq!(verify(&six), Err(LoadError::WrongDialCount { found: 6 }));
    assert_eq!(verify(&Vec::new()), Err(LoadError::WrongDialCount { found: 0 }));
}

#[test]
fn short_ring_is_rejected() {
    let mut raw = raw_of(&engineered([3, 7, 0, 11]));
    raw[2].rings[2].as_mut().unwrap().pop();
    assert_eq!(
        verify(&raw),
        Err(LoadError::WrongRingLength { dial: 2, ring: 2, found: 11 })
    );
    raw[1].rings[1].as_mut().unwrap().push(Some(1));
    assert_eq!(
        verify(&raw),
        Err(LoadError::WrongRingLength { dial: 1, ring: 1, found: 13 })
    );
}

#[test]
fn empty_ring_is_rejected_but_absent_ring_is_accepted() {
    let mut raw = raw_of(&identity_solved());
    raw[0].rings[3] = Some(Vec::new());
    assert_eq!(
        verify(&raw),
        Err(LoadError::WrongRingLength { dial: 0, ring: 3, found: 0 })
    );
    raw[0].rings[3] = None;
    assert_eq!(verify(&raw), Ok(identity_solved()));
}
