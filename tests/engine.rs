use tiling_solver::{
    batch_ranges, plan_batches, solve, solve_all, solve_instance, tally, Catalog, Cell, ConfigError, Grid,
    Outcome, Piece, PlacedPiece, Shape, Tally,
};

fn shape(rows: &[&[bool]]) -> Shape {
    Shape { rows: rows.iter().map(|r| r.to_vec()).collect() }
}

fn piece(name: &str, orientations: Vec<Shape>) -> Piece {
    Piece { name: name.to_string(), orientations }
}

fn square() -> Shape {
    shape(&[&[true, true], &[true, true]])
}

fn domino_orientations() -> Vec<Shape> {
    vec![shape(&[&[true, true]]), shape(&[&[true], &[true]])]
}

fn placed(name: &str, x: usize, y: usize, s: Shape) -> PlacedPiece {
    PlacedPiece { name: name.to_string(), x, y, shape: s }
}

fn cells(g: &Grid) -> Vec<Vec<Cell>> {
    g.rows.clone()
}

#[test]
fn fits_checks_bounds_and_emptiness() {
    let mut g = Grid::new(3, 2);
    let s = shape(&[&[true, true]]);
    assert!(g.fits(&s, 0, 0));
    assert!(g.fits(&s, 1, 1));
    assert!(!g.fits(&s, 2, 0));
    assert!(!g.fits(&s, 0, 2));
    g.place(&s, 0, 0, 7);
    assert!(!g.fits(&s, 1, 0));
    assert!(g.fits(&s, 0, 1));
    assert_eq!(g.get(1, 0), Cell::Occupied(7));
    assert_eq!(g.get(2, 0), Cell::Empty);
}

#[test]
fn holes_in_a_shape_are_not_checked() {
    let mut g = Grid::new(2, 2);
    g.place(&shape(&[&[true]]), 1, 0, 1);
    let corner = shape(&[&[true, false], &[true, true]]);
    assert!(g.fits(&corner, 0, 0));
    assert!(!g.contains_shape(&corner, 1, 0));
    assert!(g.contains_shape(&corner, 0, 0));
}

#[test]
fn unplace_restores_the_grid() {
    let mut g = Grid::new(4, 3);
    g.place(&shape(&[&[true, true, true]]), 1, 2, 3);
    let before = cells(&g);
    let l = shape(&[&[true, false], &[true, true]]);
    assert!(g.fits(&l, 0, 0));
    g.place(&l, 0, 0, 5);
    assert_ne!(cells(&g), before);
    g.unplace(&l, 0, 0);
    assert_eq!(cells(&g), before);
}

#[test]
fn placements_never_share_a_cell() {
    let mut g = Grid::new(3, 3);
    let bar = shape(&[&[true, true, true]]);
    let col = shape(&[&[true], &[true]]);
    g.place(&bar, 0, 0, 1);
    assert!(!g.fits(&col, 0, 0));
    assert!(g.fits(&col, 0, 1));
    g.place(&col, 0, 1, 2);
    assert_eq!(g.get(0, 0), Cell::Occupied(1));
    assert_eq!(g.get(0, 1), Cell::Occupied(2));
    assert_eq!(g.get(0, 2), Cell::Occupied(2));
    assert_eq!(g.get(1, 1), Cell::Empty);
}

#[test]
fn is_filled_detects_an_empty_cell() {
    let mut g = Grid::new(2, 1);
    assert!(!g.is_filled());
    g.place(&shape(&[&[true]]), 0, 0, 0);
    assert!(!g.is_filled());
    g.place(&shape(&[&[true]]), 1, 0, 1);
    assert!(g.is_filled());
}

#[test]
fn square_fills_two_by_two() {
    let cat = Catalog::new(vec![piece("square", vec![square()])]).unwrap();
    let mut g = Grid::new(2, 2);
    assert!(solve(&mut g, &cat, &vec![0]));
    assert!(g.is_filled());
    assert_eq!(cells(&g), vec![vec![Cell::Occupied(0); 2]; 2]);
}

#[test]
fn square_instance_is_solved() {
    let cat = Catalog::new(vec![piece("square", vec![square()])]).unwrap();
    match solve_instance(&cat, 2, 2, &vec![]) {
        Outcome::Solved(g) => assert_eq!(cells(&g), vec![vec![Cell::Occupied(0); 2]; 2]),
        other => panic!("expected a solution, got {:?}", other),
    }
}

#[test]
fn repeated_identity_is_used_once() {
    let cat = Catalog::new(vec![piece("domino", domino_orientations())]).unwrap();
    let mut g = Grid::new(2, 2);
    assert!(!solve(&mut g, &cat, &vec![0, 0]));
    assert_eq!(cells(&g), vec![vec![Cell::Empty; 2]; 2]);
}

#[test]
fn two_named_dominoes_fill_two_by_two() {
    let cat = Catalog::new(vec![
        piece("domino_a", domino_orientations()),
        piece("domino_b", domino_orientations()),
    ])
    .unwrap();
    let mut g = Grid::new(2, 2);
    assert!(solve(&mut g, &cat, &vec![0, 1]));
    // The first orientation at the first anchor wins: two horizontal dominoes.
    assert_eq!(
        cells(&g),
        vec![vec![Cell::Occupied(0), Cell::Occupied(0)], vec![Cell::Occupied(1), Cell::Occupied(1)]]
    );
}

#[test]
fn search_is_deterministic() {
    let cat = Catalog::new(vec![
        piece("domino_a", domino_orientations()),
        piece("domino_b", domino_orientations()),
        piece("mono", vec![shape(&[&[true]])]),
        piece("ell", vec![shape(&[&[true, false], &[true, true]]), shape(&[&[true, true], &[false, true]])]),
    ])
    .unwrap();
    let first = solve_instance(&cat, 4, 2, &vec![]);
    let second = solve_instance(&cat, 4, 2, &vec![]);
    match (first, second) {
        (Outcome::Solved(a), Outcome::Solved(b)) => {
            assert!(a.is_filled());
            assert_eq!(cells(&a), cells(&b));
        }
        other => panic!("expected two solutions, got {:?}", other),
    }
}

#[test]
fn pre_placed_cells_are_kept() {
    let cat = Catalog::new(vec![
        piece("mono", vec![shape(&[&[true]])]),
        piece("bar", vec![shape(&[&[true, true, true]]), shape(&[&[true], &[true], &[true]])]),
        piece("domino", domino_orientations()),
    ])
    .unwrap();
    let pre = vec![placed("mono", 2, 1, shape(&[&[true]]))];
    match solve_instance(&cat, 3, 2, &pre) {
        Outcome::Solved(g) => {
            assert!(g.is_filled());
            assert_eq!(g.get(2, 1), Cell::Occupied(0));
        }
        other => panic!("expected a solution, got {:?}", other),
    }
}

#[test]
fn full_board_of_pre_placed_pieces_is_solved() {
    let cat = Catalog::new(vec![piece("square", vec![square()])]).unwrap();
    let pre = vec![placed("square", 0, 0, square())];
    match solve_instance(&cat, 2, 2, &pre) {
        Outcome::Solved(g) => assert_eq!(cells(&g), vec![vec![Cell::Occupied(0); 2]; 2]),
        other => panic!("expected a solution, got {:?}", other),
    }
    let mut g = Grid::new(1, 1);
    g.place(&shape(&[&[true]]), 0, 0, 0);
    assert!(solve(&mut g, &cat, &vec![]));
}

#[test]
fn filled_early_ignores_remaining_pieces() {
    let cat = Catalog::new(vec![piece("square", vec![square()]), piece("mono", vec![shape(&[&[true]])])]).unwrap();
    let mut g = Grid::new(2, 2);
    assert!(solve(&mut g, &cat, &vec![0, 1]));
    assert_eq!(cells(&g), vec![vec![Cell::Occupied(0); 2]; 2]);
}

#[test]
fn impossible_area_is_unsolved() {
    let tri = shape(&[&[true, true, true]]);
    let cat = Catalog::new(vec![piece("tri_a", vec![tri.clone()]), piece("tri_b", vec![tri])]).unwrap();
    let mut g = Grid::new(2, 2);
    assert!(!solve(&mut g, &cat, &vec![0, 1]));
    assert!(matches!(solve_instance(&cat, 2, 2, &vec![]), Outcome::Unsolved));
}

#[test]
fn anchor_keeps_shape_box_on_board() {
    // The shape's cell fits at the corner, but its second column would not.
    let stub = shape(&[&[true, false]]);
    let cat = Catalog::new(vec![piece("stub", vec![stub.clone()])]).unwrap();
    let mut g = Grid::new(1, 1);
    assert!(g.fits(&stub, 0, 0));
    assert!(!solve(&mut g, &cat, &vec![0]));
    let mut wide = Grid::new(2, 1);
    assert!(!solve(&mut wide, &cat, &vec![0]));
    let mut wider = Grid::new(3, 1);
    wider.place(&shape(&[&[true]]), 0, 0, 0);
    wider.place(&shape(&[&[true]]), 2, 0, 0);
    assert!(solve(&mut wider, &cat, &vec![0]));
    assert_eq!(wider.get(1, 0), Cell::Occupied(0));
}

#[test]
fn empty_order_on_open_board_fails() {
    let cat = Catalog::new(vec![piece("square", vec![square()])]).unwrap();
    let mut g = Grid::new(2, 2);
    assert!(!solve(&mut g, &cat, &vec![]));
}

#[test]
fn backtracking_undoes_a_wrong_choice() {
    // The bar placed flat first leaves a hole no piece fills; standing it up works.
    let cat = Catalog::new(vec![
        piece("bar", vec![shape(&[&[true, true]]), shape(&[&[true], &[true]])]),
        piece("tall", vec![shape(&[&[true], &[true]])]),
    ])
    .unwrap();
    let mut g = Grid::new(2, 2);
    assert!(solve(&mut g, &cat, &vec![0, 1]));
    assert_eq!(
        cells(&g),
        vec![vec![Cell::Occupied(0), Cell::Occupied(1)], vec![Cell::Occupied(0), Cell::Occupied(1)]]
    );
}

#[test]
fn catalog_rejects_piece_without_orientations() {
    let r = Catalog::new(vec![piece("square", vec![square()]), piece("none", vec![])]);
    assert_eq!(r.err(), Some(ConfigError::NoOrientations(1)));
}

#[test]
fn catalog_rejects_empty_shape() {
    let r = Catalog::new(vec![piece("odd", vec![square(), shape(&[&[false, false]])])]);
    assert_eq!(r.err(), Some(ConfigError::EmptyShape(0, 1)));
}

#[test]
fn catalog_rejects_duplicate_name() {
    let r = Catalog::new(vec![piece("a", vec![square()]), piece("b", vec![square()]), piece("a", vec![square()])]);
    assert_eq!(r.err(), Some(ConfigError::DuplicateName(2)));
}

#[test]
fn catalog_find_by_name() {
    let cat = Catalog::new(vec![piece("a", vec![square()]), piece("b", vec![square()])]).unwrap();
    assert_eq!(cat.len(), 2);
    assert_eq!(cat.find(&"b".to_string()), Some(1));
    assert_eq!(cat.find(&"c".to_string()), None);
}

#[test]
fn unknown_pre_placed_piece_is_invalid() {
    let cat = Catalog::new(vec![piece("square", vec![square()])]).unwrap();
    let pre = vec![placed("circle", 0, 0, square())];
    assert!(matches!(solve_instance(&cat, 2, 2, &pre), Outcome::Invalid(ConfigError::UnknownPiece(0))));
}

#[test]
fn pre_placed_piece_off_the_board_is_invalid() {
    let cat = Catalog::new(vec![piece("square", vec![square()]), piece("mono", vec![shape(&[&[true]])])]).unwrap();
    let pre = vec![placed("mono", 0, 0, shape(&[&[true]])), placed("square", 1, 0, square())];
    assert!(matches!(solve_instance(&cat, 2, 2, &pre), Outcome::Invalid(ConfigError::OutOfBounds(1))));
}

#[test]
fn overlapping_pre_placed_pieces_are_invalid() {
    let cat = Catalog::new(vec![piece("square", vec![square()]), piece("mono", vec![shape(&[&[true]])])]).unwrap();
    let pre = vec![placed("mono", 1, 1, shape(&[&[true]])), placed("square", 0, 0, square())];
    assert!(matches!(solve_instance(&cat, 2, 2, &pre), Outcome::Invalid(ConfigError::Overlap(1))));
}

fn instances() -> (Catalog, Vec<Vec<PlacedPiece>>) {
    let cat = Catalog::new(vec![
        piece("square", vec![square()]),
        piece("domino_a", domino_orientations()),
        piece("domino_b", domino_orientations()),
    ])
    .unwrap();
    let insts = vec![
        vec![],
        vec![placed("square", 0, 0, square())],
        vec![placed("domino_a", 0, 0, shape(&[&[true, true]]))],
        vec![placed("ghost", 0, 0, square())],
        vec![placed("domino_a", 0, 0, shape(&[&[true], &[true]])), placed("domino_b", 1, 0, shape(&[&[true], &[true]]))],
        vec![placed("square", 1, 1, square())],
        vec![placed("domino_a", 0, 0, shape(&[&[true, true]])), placed("domino_b", 0, 1, shape(&[&[true], &[true]]))],
    ];
    (cat, insts)
}

#[test]
fn tally_counts_each_result() {
    let (cat, insts) = instances();
    let t = solve_all(&cat, 2, 2, &insts);
    // The third instance leaves the square unplaceable, and a remaining piece
    // is never skipped, so that search fails.
    assert_eq!(t, Tally { solved: 3, unsolved: 1, invalid: 3 });
    assert_eq!(tally(&cat, 2, 2, &insts, 2, 4), Tally { solved: 0, unsolved: 1, invalid: 1 });
}

#[test]
fn unsolved_instance_is_counted() {
    let cat = Catalog::new(vec![piece("square", vec![square()]), piece("mono", vec![shape(&[&[true]])])]).unwrap();
    let insts = vec![vec![placed("mono", 0, 0, shape(&[&[true]]))], vec![]];
    assert_eq!(solve_all(&cat, 2, 2, &insts), Tally { solved: 1, unsolved: 1, invalid: 0 });
}

#[test]
fn batch_grouping_does_not_change_totals() {
    let (cat, insts) = instances();
    let whole = solve_all(&cat, 2, 2, &insts);
    for size in 1..=8 {
        let mut total = Tally { solved: 0, unsolved: 0, invalid: 0 };
        for (lo, hi) in batch_ranges(insts.len(), size) {
            total = total.merge(&tally(&cat, 2, 2, &insts, lo, hi)).unwrap();
        }
        assert_eq!(total, whole);
    }
}

#[test]
fn batch_ranges_cut_consecutively() {
    assert_eq!(batch_ranges(7, 3), vec![(0, 3), (3, 6), (6, 7)]);
    assert_eq!(batch_ranges(6, 3), vec![(0, 3), (3, 6)]);
    assert_eq!(batch_ranges(2, 5), vec![(0, 2)]);
    assert_eq!(batch_ranges(0, 4), vec![]);
}

#[test]
fn plan_batches_covers_all_instances() {
    let r = plan_batches(162);
    assert_eq!(r[0].0, 0);
    assert_eq!(r[r.len() - 1].1, 162);
    for k in 1..r.len() {
        assert_eq!(r[k - 1].1, r[k].0);
    }
    assert!(plan_batches(0).is_empty());
}

#[test]
fn merge_adds_and_detects_overflow() {
    let a = Tally { solved: 1, unsolved: 2, invalid: 3 };
    let b = Tally { solved: 10, unsolved: 20, invalid: 30 };
    assert_eq!(a.merge(&b), Some(Tally { solved: 11, unsolved: 22, invalid: 33 }));
    let big = Tally { solved: usize::MAX, unsolved: 0, invalid: 0 };
    assert_eq!(big.merge(&a), None);
}

#[test]
fn has_occupied_reports_cells() {
    assert!(square().has_occupied());
    assert!(!shape(&[&[false], &[false]]).has_occupied());
    assert!(!shape(&[]).has_occupied());
}
