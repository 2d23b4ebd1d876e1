use cuboid_puzzle::common::{Block, Dir, Face};
use cuboid_puzzle::rotation::{all_rots, rot_block};
use cuboid_puzzle::volume::Solver;
use std::collections::HashSet;

const TEST_FACE_1X1: Face = Face {
    value: 1,
    long: 1,
    short: 1,
    block: 1,
    dir: Dir::Front,
};

const TEST_FACE_2X1: Face = Face {
    value: 2,
    long: 2,
    short: 1,
    block: 2,
    dir: Dir::Front,
};

fn test_block_2x1x1(label: &'static str) -> Block {
    let mut faces = [
        TEST_FACE_2X1,
        TEST_FACE_2X1,
        TEST_FACE_2X1,
        TEST_FACE_2X1,
        TEST_FACE_1X1,
        TEST_FACE_1X1,
    ];
    // the faces of a block are listed in the canonical direction order
    let dirs = [
        Dir::Front,
        Dir::Back,
        Dir::Left,
        Dir::Right,
        Dir::Top,
        Dir::Bottom,
    ];
    for (face, dir) in faces.iter_mut().zip(dirs) {
        face.dir = dir;
    }
    Block {
        height: 2,
        width: 1,
        depth: 1,
        faces,
        label,
    }
}

fn shape_variants(label: &'static str) -> Vec<Block> {
    let block = test_block_2x1x1(label);
    let rot_1 = rot_block(&Dir::Front, &block);
    let rot_2 = rot_block(&Dir::Right, &block);
    vec![block, rot_1, rot_2]
}

fn run_to_end(solver: &mut Solver) {
    while !solver.done() && solver.step() {}
}

#[test]
fn solve_2x_2x1x1_in_2x2x1() {
    let rot_blocks = vec![shape_variants("A"), shape_variants("B")];
    let mut solver = Solver::new(2, 2, 1, None, rot_blocks);
    run_to_end(&mut solver);
    assert_eq!(solver.solutions.len(), 4);
}

#[test]
fn volume_solve_2x_2x1x1_in_2x2x1() {
    let rot_blocks = vec![shape_variants("A"), shape_variants("B")];
    let mut solver = Solver::new(2, 2, 1, None, rot_blocks);
    let mut count = 0;
    while solver.step_to_solution() {
        count += 1;
    }
    assert_eq!(count, 4);
    assert_eq!(solver.solutions.len(), 4);
    assert!(solver.done());
}

#[test]
fn solve_4x_2x1x1_in_2x2x2() {
    let rot_blocks = vec![
        shape_variants("A"),
        shape_variants("B"),
        shape_variants("C"),
        shape_variants("D"),
    ];
    let mut solver = Solver::new(2, 2, 2, None, rot_blocks);
    run_to_end(&mut solver);
    assert_eq!(solver.solutions.len(), 216);
}

#[test]
fn volume_solve_4x_2x1x1_in_2x2x2() {
    let rot_blocks = vec![
        shape_variants("A"),
        shape_variants("B"),
        shape_variants("C"),
        shape_variants("D"),
    ];
    let mut solver = Solver::new(2, 2, 2, None, rot_blocks);
    let mut count = 0;
    while solver.step_to_solution() {
        count += 1;
    }
    assert_eq!(count, 216);
}

fn labeled_face(value: u8, long: u8, short: u8, dir: Dir) -> Face {
    Face {
        value,
        long,
        short,
        block: 0,
        dir,
    }
}

#[test]
fn all_rots_creates_24_distinct_blocks() {
    let block = Block {
        height: 3,
        width: 2,
        depth: 1,
        faces: [
            labeled_face(0, 3, 2, Dir::Front),
            labeled_face(1, 3, 2, Dir::Back),
            labeled_face(2, 3, 1, Dir::Left),
            labeled_face(3, 3, 1, Dir::Right),
            labeled_face(4, 2, 1, Dir::Top),
            labeled_face(5, 2, 1, Dir::Bottom),
        ],
        label: "U",
    };

    let rots = all_rots(&block);
    let set: HashSet<Block> = HashSet::from_iter(rots);
    assert_eq!(set.len(), 24);
}

fn toy_block_a() -> Block {
    Block {
        height: 2,
        width: 1,
        depth: 1,
        faces: [
            labeled_face(9, 2, 1, Dir::Front),
            labeled_face(8, 2, 1, Dir::Back),
            labeled_face(12, 2, 1, Dir::Left),
            labeled_face(14, 2, 1, Dir::Right),
            labeled_face(6, 1, 1, Dir::Top),
            labeled_face(7, 1, 1, Dir::Bottom),
        ],
        label: "A",
    }
}

fn toy_block_b() -> Block {
    Block {
        height: 2,
        width: 1,
        depth: 1,
        faces: [
            labeled_face(3, 2, 1, Dir::Front),
            labeled_face(4, 2, 1, Dir::Back),
            labeled_face(13, 2, 1, Dir::Left),
            labeled_face(12, 2, 1, Dir::Right),
            labeled_face(6, 1, 1, Dir::Top),
            labeled_face(5, 1, 1, Dir::Bottom),
        ],
        label: "B",
    }
}

#[test]
fn solve_2x_2x1x1_in_2x2x1_to_sum() {
    let rot_blocks = [toy_block_a(), toy_block_b()]
        .iter()
        .map(all_rots)
        .collect::<Vec<_>>();
    let mut solver = Solver::new(2, 2, 1, Some(12), rot_blocks);
    run_to_end(&mut solver);
    assert_eq!(solver.solutions.len(), 8);
}
