use cuboid_puzzle::dodeca::{place_penta, remove_penta, DodecaSolver, TRI_TO_FACETS};

/// Twelve pentagons cut from a labeling where every triangle sums to 96.
fn solved_pentas() -> Vec<[i32; 5]> {
    vec![
        [13, 2, 5, 4, 1],
        [28, 3, 7, 6, 29],
        [55, 31, 9, 8, 30],
        [32, 33, 11, 17, 10],
        [34, 27, 14, 18, 12],
        [37, 26, 16, 21, 15],
        [64, 60, 40, 38, 61],
        [65, 56, 35, 41, 58],
        [63, 51, 36, 39, 62],
        [44, 49, 25, 22, 20],
        [43, 45, 23, 24, 53],
        [46, 59, 50, 52, 42],
    ]
}

#[test]
fn dodeca_search_reaches_the_labeling() {
    let mut solver = DodecaSolver::new(solved_pentas());
    assert_eq!(solver.stack(), vec![(0, 0)]);
    for _ in 0..11 {
        assert!(solver.step());
    }
    let expected: Vec<(usize, usize)> = (0..12).map(|i| (i, 0)).collect();
    assert_eq!(solver.stack(), expected);
    let facets = solver.facets();
    for tri in TRI_TO_FACETS {
        assert_eq!(facets[tri[0]] + facets[tri[1]] + facets[tri[2]], 96);
    }
    // the next step records the complete assignment and moves on
    solver.step();
    let solutions = solver.solutions();
    assert_eq!(solutions.len(), 1);
    assert_eq!(solutions[0].to_vec(), expected);
}

#[test]
fn place_penta_checks_completed_triangles() {
    let pentas = solved_pentas();
    let mut state = [0i32; 60];
    assert!(place_penta(&mut state, &pentas[0], 0, 0));
    assert_eq!(&state[0..5], &[13, 2, 5, 4, 1]);
    // rotation shifts the labels along the slot
    assert!(place_penta(&mut state, &pentas[1], 1, 1));
    assert_eq!(&state[5..10], &[29, 28, 3, 7, 6]);
    remove_penta(&mut state, 1);
    assert_eq!(&state[5..10], &[0, 0, 0, 0, 0]);
    assert!(place_penta(&mut state, &pentas[1], 0, 1));
    // triangle 0 (facets 0, 5, 10) holds 13 + 28 and needs 55
    let mut wrong = pentas[2];
    wrong[0] = 54;
    assert!(!place_penta(&mut state, &wrong, 0, 2));
    assert_eq!(&state[10..15], &[0, 0, 0, 0, 0]);
    assert!(place_penta(&mut state, &pentas[2], 0, 2));
    assert_eq!(state[0] + state[5] + state[10], 96);
}

#[test]
fn pentas_on_ico_finds_the_one_labeling() {
    let solutions = cuboid_puzzle::dodeca::pentas_on_ico(&solved_pentas());
    let expected: Vec<(usize, usize)> = (0..12).map(|i| (i, 0)).collect();
    assert_eq!(solutions.len(), 1);
    assert_eq!(solutions[0].to_vec(), expected);
}
