use piece_packer::cells::{FieldState, PieceState};
use piece_packer::field::Field;
use piece_packer::piece::Piece;
use piece_packer::solver::Solution;

const O: PieceState = PieceState::Occupied;
const E: PieceState = PieceState::Free;

fn piece(id: u8, width: usize, height: usize, field: Vec<PieceState>) -> Piece {
    Piece { id, width, height, field }
}

fn field(width: usize, height: usize, cells: Vec<FieldState>) -> Field {
    Field { width, height, field: cells }
}

fn occupied(p: &Piece) -> usize {
    p.field.iter().filter(|c| **c == O).count()
}

#[test]
fn flipped_horizontally_reverses_rows() {
    // X X
    // X .
    // . .
    let p = piece(3, 2, 3, vec![O, O, O, E, E, E]);
    let r = p.flipped_horizontally();
    assert_eq!(r.id, 3);
    assert_eq!((r.width, r.height), (2, 3));
    assert_eq!(r.field, vec![E, E, O, E, O, O]);
}

#[test]
fn flipped_vertically_reverses_columns() {
    let p = piece(1, 3, 2, vec![O, E, E, O, O, E]);
    let r = p.flipped_vertically();
    assert_eq!((r.width, r.height), (3, 2));
    assert_eq!(r.field, vec![E, E, O, E, O, O]);
}

#[test]
fn transposed_swaps_dimensions() {
    // 3 wide, 2 tall:
    // X X X
    // X . .
    let p = piece(2, 3, 2, vec![O, O, O, O, E, E]);
    let r = p.transposed();
    assert_eq!(r.id, 2);
    assert_eq!((r.width, r.height), (2, 3));
    assert_eq!(r.field, vec![O, O, O, E, O, E]);
    assert!(r.transposed() == p);
}

#[test]
fn variants_of_square_collapse_to_one() {
    let p = piece(0, 2, 2, vec![O, O, O, O]);
    let v = p.all_variants();
    assert_eq!(v.len(), 1);
    assert!(v[0] == p);
}

#[test]
fn variants_of_single_cell() {
    let p = piece(0, 1, 1, vec![O]);
    assert_eq!(p.all_variants().len(), 1);
}

#[test]
fn variants_of_domino_are_two() {
    let p = piece(4, 2, 1, vec![O, O]);
    let v = p.all_variants();
    assert_eq!(v.len(), 2);
    assert!(v.iter().any(|q| q.width == 1 && q.height == 2));
    assert!(v.iter().any(|q| q.width == 2 && q.height == 1));
}

#[test]
fn variants_of_corner_tromino_are_four() {
    let p = piece(0, 2, 2, vec![O, O, O, E]);
    assert_eq!(p.all_variants().len(), 4);
}

#[test]
fn variants_of_l_tetromino_are_eight() {
    // X .
    // X .
    // X X
    let p = piece(5, 2, 3, vec![O, E, O, E, O, O]);
    let v = p.all_variants();
    assert_eq!(v.len(), 8);
    for q in v.iter() {
        assert_eq!(q.id, 5);
        assert_eq!(occupied(q), 4);
        for i in 0..v.len() {
            for j in 0..v.len() {
                if i != j {
                    assert!(v[i] != v[j]);
                }
            }
        }
    }
}

#[test]
fn variants_are_closed_under_flips_and_transpose() {
    let p = piece(1, 3, 2, vec![O, O, E, E, O, O]);
    let v = p.all_variants();
    assert!(v.len() >= 1 && v.len() <= 8);
    for q in v.iter() {
        assert_eq!(q.id, 1);
        assert_eq!(occupied(q), occupied(&p));
        for t in [q.flipped_horizontally(), q.flipped_vertically(), q.transposed()] {
            assert!(v.iter().any(|r| *r == t));
        }
    }
}

#[test]
fn place_iter_visits_anchors_row_by_row() {
    let f = field(3, 2, vec![FieldState::Free(1); 6]);
    let p = piece(0, 2, 1, vec![O, O]);
    let r = f.place_iter(&p);
    assert_eq!(r.len(), 4);
    let a = FieldState::Occupied(0);
    let b = FieldState::Free(1);
    assert_eq!(r[0].field, vec![a, a, b, b, b, b]);
    assert_eq!(r[1].field, vec![b, a, a, b, b, b]);
    assert_eq!(r[2].field, vec![b, b, b, a, a, b]);
    assert_eq!(r[3].field, vec![b, b, b, b, a, a]);
}

#[test]
fn place_iter_skips_blocked_and_occupied_cells() {
    let f = field(
        3,
        1,
        vec![FieldState::Free(2), FieldState::Blocked, FieldState::Occupied(7)],
    );
    let p = piece(1, 1, 1, vec![O]);
    let r = f.place_iter(&p);
    assert_eq!(r.len(), 1);
    assert_eq!(
        r[0].field,
        vec![FieldState::Occupied(1), FieldState::Blocked, FieldState::Occupied(7)]
    );
    assert_eq!(f.field[0], FieldState::Free(2));
}

#[test]
fn place_iter_changes_only_covered_cells() {
    let f = field(
        3,
        3,
        vec![
            FieldState::Free(1),
            FieldState::Free(2),
            FieldState::Blocked,
            FieldState::Free(3),
            FieldState::Free(4),
            FieldState::Free(5),
            FieldState::Free(6),
            FieldState::Blocked,
            FieldState::Free(0),
        ],
    );
    // X .
    // X X
    let p = piece(2, 2, 2, vec![O, E, O, O]);
    for g in f.place_iter(&p).iter() {
        let mut changed = 0;
        for i in 0..9 {
            if g.field[i] != f.field[i] {
                changed += 1;
                assert!(matches!(f.field[i], FieldState::Free(_)));
                assert_eq!(g.field[i], FieldState::Occupied(2));
            }
        }
        assert_eq!(changed, 3);
        assert!(g.count() <= f.count());
    }
    assert_eq!(f.place_iter(&p).len(), 2);
}

#[test]
fn free_cells_around_a_hole_are_skipped_by_a_piece_with_a_hole() {
    let f = field(2, 2, vec![FieldState::Free(1), FieldState::Blocked, FieldState::Free(1), FieldState::Free(1)]);
    let p = piece(0, 2, 2, vec![O, E, O, O]);
    let r = f.place_iter(&p);
    assert_eq!(r.len(), 1);
    assert_eq!(r[0].field[1], FieldState::Blocked);
}

#[test]
fn count_sums_free_scores() {
    let f = field(
        2,
        2,
        vec![FieldState::Free(9), FieldState::Blocked, FieldState::Occupied(0), FieldState::Free(4)],
    );
    assert_eq!(f.count(), 13);
}

#[test]
fn count_does_not_overflow_a_byte() {
    let f = field(40, 1, vec![FieldState::Free(9); 40]);
    assert_eq!(f.count(), 360);
}

#[test]
fn count_never_increases_with_placements() {
    let f = field(2, 2, vec![FieldState::Free(3), FieldState::Free(0), FieldState::Free(5), FieldState::Free(1)]);
    let p = piece(0, 1, 1, vec![O]);
    let counts: Vec<u128> = f.place_iter(&p).iter().map(|g| g.count()).collect();
    assert_eq!(counts, vec![6, 9, 4, 8]);
}

#[test]
fn two_by_two_field_with_single_cell_piece() {
    let f = field(2, 2, vec![FieldState::Free(1); 4]);
    let p = piece(0, 1, 1, vec![O]);
    let s = Solution::new(&f, &[p]);
    assert_eq!(s.solutions.len(), 4);
    for g in s.solutions.iter() {
        let occ = g.field.iter().filter(|c| **c == FieldState::Occupied(0)).count();
        let free = g.field.iter().filter(|c| **c == FieldState::Free(1)).count();
        assert_eq!((occ, free), (1, 3));
        assert_eq!(g.count(), 3);
    }
    assert_eq!(s.highest_score(), 3);
    assert_eq!(s.best_solutions().len(), 4);
}

#[test]
fn one_cell_field_with_one_cell_piece() {
    let f = field(1, 1, vec![FieldState::Free(0)]);
    let p = piece(0, 1, 1, vec![O]);
    let s = Solution::new(&f, &[p]);
    assert_eq!(s.solutions.len(), 1);
    assert_eq!(s.solutions[0].count(), 0);
    assert_eq!(s.solutions[0].field, vec![FieldState::Occupied(0)]);
    assert_eq!(s.highest_score(), 0);
    assert_eq!(s.best_solutions().len(), 1);
}

#[test]
fn piece_larger_than_field_has_no_solution() {
    let f = field(1, 1, vec![FieldState::Free(2)]);
    let tall = piece(0, 1, 2, vec![O, O]);
    let wide = piece(0, 3, 1, vec![O, E, O]);
    assert_eq!(f.place_iter(&tall).len(), 0);
    assert_eq!(f.place_iter(&wide).len(), 0);
    let s = Solution::new(&f, &[piece(0, 2, 2, vec![O, O, O, O])]);
    assert!(s.solutions.is_empty());
    assert_eq!(s.highest_score(), 0);
    assert!(s.best_solutions().is_empty());
}

#[test]
fn later_piece_that_cannot_fit_ends_the_branch() {
    let f = field(2, 1, vec![FieldState::Free(1); 2]);
    let first = piece(0, 1, 1, vec![O]);
    let second = piece(1, 2, 1, vec![O, O]);
    let s = Solution::new(&f, &[first, second]);
    assert_eq!(s.solutions.len(), 0);
}

#[test]
fn blocked_field_has_no_placement() {
    let f = field(3, 3, vec![FieldState::Blocked; 9]);
    for p in [
        piece(0, 1, 1, vec![O]),
        piece(0, 2, 2, vec![E, E, E, O]),
        piece(0, 3, 3, vec![O; 9]),
    ] {
        assert_eq!(f.place_iter(&p).len(), 0);
    }
}

#[test]
fn two_pieces_fill_field_in_every_way() {
    // 1 x 3 field, pieces: a single cell and a domino
    let f = field(3, 1, vec![FieldState::Free(1), FieldState::Free(2), FieldState::Free(3)]);
    let a = piece(0, 1, 1, vec![O]);
    let b = piece(1, 2, 1, vec![O, O]);
    let s = Solution::new(&f, &[a, b]);
    assert_eq!(s.pieces.len(), 2);
    assert_eq!(s.pieces[0].len(), 1);
    assert_eq!(s.pieces[1].len(), 2);
    assert_eq!(s.solutions.len(), 2);
    for g in s.solutions.iter() {
        assert_eq!(g.count(), 0);
    }
}

#[test]
fn best_solutions_keep_the_highest_scores() {
    let f = field(3, 1, vec![FieldState::Free(1), FieldState::Free(5), FieldState::Free(1)]);
    let p = piece(0, 1, 1, vec![O]);
    let s = Solution::new(&f, &[p]);
    assert_eq!(s.solutions.len(), 3);
    assert_eq!(s.highest_score(), 6);
    let best = s.best_solutions();
    assert_eq!(best.len(), 2);
    for g in best.iter() {
        assert_eq!(g.count(), 6);
    }
    for g in s.solutions.iter() {
        assert!(g.count() <= s.highest_score());
    }
    assert_eq!(s.start.field, f.field);
}

#[test]
fn solving_twice_gives_the_same_configurations() {
    let f = field(3, 2, vec![FieldState::Free(1); 6]);
    let a = piece(0, 2, 2, vec![O, O, O, E]);
    let b = piece(1, 1, 1, vec![O]);
    let s1 = Solution::new(&f, &[a.copied(), b.copied()]);
    let s2 = Solution::new(&f, &[a, b]);
    let mut g1: Vec<Vec<FieldState>> = s1.solutions.iter().map(|g| g.field.clone()).collect();
    let mut g2: Vec<Vec<FieldState>> = s2.solutions.iter().map(|g| g.field.clone()).collect();
    let key = |v: &Vec<FieldState>| format!("{:?}", v);
    g1.sort_by_key(key);
    g2.sort_by_key(key);
    assert_eq!(g1, g2);
    assert_eq!(g1.len(), 8 * 3);
}
