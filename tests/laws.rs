use cuboid_puzzle::common::{inventory, inventory_block, Block, Dir, Face, BLOCK_COUNT};
use cuboid_puzzle::constraints::{
    can_propagate, compatible_six_combo, find_corner, is_corner_possible, match_combos_in_pairs,
    propagate, combinations_to_n,
};
use cuboid_puzzle::rotation::{all_rots, rot_block, shape_rots};
use cuboid_puzzle::volume::{print_state, solver, BlockInPuzzle, Solver};

fn face(value: u8, long: u8, short: u8, block: u8, dir: Dir) -> Face {
    Face {
        value,
        long,
        short,
        block,
        dir,
    }
}

fn brick(h: u8, w: u8, d: u8, values: [u8; 6]) -> Block {
    Block {
        height: h,
        width: w,
        depth: d,
        faces: [
            face(values[0], h, w, 0, Dir::Front),
            face(values[1], h, w, 0, Dir::Back),
            face(values[2], h, d, 0, Dir::Left),
            face(values[3], h, d, 0, Dir::Right),
            face(values[4], w, d, 0, Dir::Top),
            face(values[5], w, d, 0, Dir::Bottom),
        ],
        label: "brick",
    }
}

#[test]
fn four_quarter_turns_give_the_block_back() {
    let block = brick(3, 2, 1, [1, 2, 3, 4, 5, 6]);
    for axis in [Dir::Front, Dir::Back, Dir::Left, Dir::Right, Dir::Top, Dir::Bottom] {
        let mut turned = block;
        for _ in 0..4 {
            turned = rot_block(&axis, &turned);
        }
        assert_eq!(turned, block);
    }
}

#[test]
fn quarter_turn_about_front_moves_sides() {
    let block = brick(3, 2, 1, [1, 2, 3, 4, 5, 6]);
    let turned = rot_block(&Dir::Front, &block);
    assert_eq!((turned.height, turned.width, turned.depth), (2, 3, 1));
    // the faces stay in canonical order, Front and Back in place
    let values: Vec<u8> = turned.faces.iter().map(|f| f.value).collect();
    assert_eq!(values, vec![1, 2, 5, 6, 4, 3]);
    let dirs: Vec<Dir> = turned.faces.iter().map(|f| f.dir).collect();
    assert_eq!(
        dirs,
        vec![Dir::Front, Dir::Back, Dir::Left, Dir::Right, Dir::Top, Dir::Bottom]
    );
}

#[test]
fn all_rots_first_entry_is_the_block() {
    let block = brick(3, 2, 1, [1, 2, 3, 4, 5, 6]);
    let rots = all_rots(&block);
    assert_eq!(rots.len(), 24);
    assert_eq!(rots[0], block);
}

#[test]
fn shape_rots_counts() {
    assert_eq!(shape_rots(&brick(3, 2, 1, [1, 2, 3, 4, 5, 6])).len(), 6);
    assert_eq!(shape_rots(&brick(2, 1, 1, [1, 2, 3, 4, 5, 6])).len(), 3);
    assert_eq!(shape_rots(&brick(2, 2, 2, [1, 2, 3, 4, 5, 6])).len(), 1);
    let shapes: Vec<(u8, u8, u8)> = shape_rots(&brick(2, 1, 1, [1, 2, 3, 4, 5, 6]))
        .iter()
        .map(|b| (b.height, b.width, b.depth))
        .collect();
    assert_eq!(shapes, vec![(2, 1, 1), (1, 2, 1), (1, 1, 2)]);
}

#[test]
fn dir_opposite_and_prod() {
    for d in [Dir::Front, Dir::Back, Dir::Left, Dir::Right, Dir::Top, Dir::Bottom] {
        assert_eq!(d.opposite().opposite(), d);
        assert_ne!(d.opposite(), d);
    }
    assert_eq!(Dir::Front.prod(Dir::Left), Dir::Bottom);
    assert_eq!(Dir::Top.prod(Dir::Left), Dir::Front);
    assert_eq!(Dir::Left.prod(Dir::Top), Dir::Back);
    assert_eq!(Dir::Bottom.prod(Dir::Right), Dir::Front);
}

#[test]
fn inventory_faces() {
    let blocks = inventory();
    assert_eq!(blocks.len(), BLOCK_COUNT);
    assert_eq!(blocks[0].label, "bigger_chunk");
    assert_eq!(blocks[0].faces[0].value, 43);
    assert_eq!(blocks[8].faces[5].value, 12);
    assert_eq!((blocks[5].height, blocks[5].width, blocks[5].depth), (6, 5, 4));
    let top = blocks[0].faces[4];
    assert_eq!((top.long, top.short, top.area()), (6, 5, 30));
    assert_eq!(top.opposite(), blocks[0].faces[5]);
    assert_eq!(inventory_block(3).faces[1].opposite().value, 49);
}

fn toy_solver(target: Option<u8>) -> Solver {
    let a = brick(2, 1, 1, [9, 8, 12, 14, 6, 7]);
    let b = brick(2, 1, 1, [3, 4, 13, 12, 6, 5]);
    Solver::new(2, 2, 1, target, vec![all_rots(&a), all_rots(&b)])
}

fn check_ledgers(s: &Solver) {
    // every block is placed or remaining
    assert_eq!(s.stack.len() + s.rem.len(), s.block_count());
    // the next position is the lowest empty cell
    let first_empty = s.state.iter().position(|c| c.is_none()).unwrap_or(s.state.len());
    assert_eq!(s.position, first_empty);
    {
        // the ledgers are kept in every mode
        let (h, w, d) = (s.puzzle_height, s.puzzle_width, s.puzzle_depth);
        let totals = [h * w, h * w, h * d, h * d, w * d, w * d];
        for k in 0..6 {
            let mut sum = 0usize;
            let mut area = 0usize;
            for (block, _, x, y, z) in s.stack() {
                let touches = match k {
                    0 => z == 0,
                    1 => z + block.depth as usize == d,
                    2 => y == 0,
                    3 => y + block.width as usize == w,
                    4 => x + block.height as usize == h,
                    _ => x == 0,
                };
                if touches {
                    sum += block.faces[k].value as usize;
                    area += block.faces[k].long as usize * block.faces[k].short as usize;
                }
            }
            assert_eq!(s.face_sums[k], sum as i128);
            assert_eq!(s.face_free_areas[k] + area as i128, totals[k] as i128);
        }
    }
}

#[test]
fn invariants_hold_along_the_search() {
    let mut s = toy_solver(Some(12));
    check_ledgers(&s);
    let mut steps = 0;
    while !s.done() {
        let moved = s.step();
        // every step either moves or ends the search
        assert!(moved || s.done());
        check_ledgers(&s);
        steps += 1;
    }
    assert!(steps > 0);
    assert!(!s.step());
    assert_eq!(s.stack.len(), 0);
}

#[test]
fn step_then_backtrack_restores_the_state() {
    // one block fills a 2x1x1 puzzle, each of its faces completing an outer
    // face; the search places it, then takes it off again and tries the
    // other rotations
    let block = brick(2, 1, 1, [7; 6]);
    let mut s = Solver::new(2, 1, 1, Some(7), vec![all_rots(&block)]);
    assert_eq!(s.stack.len(), 1);
    assert_eq!(s.position, 2);
    assert_eq!(s.stack[0], BlockInPuzzle { block_id: 0, rot_id: 0, position: 0 });
    assert_eq!(s.face_sums, [7; 6]);
    assert_eq!(s.face_free_areas, [0; 6]);
    assert_eq!(s.rem.len(), 0);
    while s.step() {}
    assert_eq!(s.state, vec![None, None]);
    assert_eq!(s.face_sums, [0; 6]);
    assert_eq!(s.face_free_areas, [2, 2, 2, 2, 1, 1]);
    assert_eq!(s.position, 0);
    assert_eq!(s.rem.len(), 1);
    // the rotations that keep the block upright all fit
    assert_eq!(s.solutions.len(), 8);
}

#[test]
fn unreachable_sum_rejects_first_block() {
    // the first block would use up an outer face below the target
    let block = brick(2, 1, 1, [1, 2, 3, 4, 5, 6]);
    let s = Solver::new(2, 1, 1, Some(100), vec![all_rots(&block)]);
    assert_eq!(s.stack.len(), 0);
    assert_eq!(s.position, 0);
    assert_eq!(s.rem.len(), 1);
}

#[test]
fn geometric_search_keeps_ledgers() {
    let mut s = toy_solver(None);
    check_ledgers(&s);
    while s.step() {
        check_ledgers(&s);
    }
    assert!(s.done());
}

#[test]
fn all_rots_first_six_face_up() {
    // the first six rotations give the six ways to lay the block along the
    // axes; each later one is a half-turn spin of one of them
    let block = brick(3, 2, 1, [1, 2, 3, 4, 5, 6]);
    let rots = all_rots(&block);
    let shapes: Vec<(u8, u8, u8)> = rots.iter().map(|b| (b.height, b.width, b.depth)).collect();
    let mut first = shapes[0..6].to_vec();
    first.sort();
    first.dedup();
    assert_eq!(first.len(), 6);
    for n in 0..24 {
        assert_eq!(shapes[n], shapes[n % 6]);
    }
}

#[test]
fn labeled_target_prunes() {
    // with a target the sums cannot reach, nothing is found
    let mut s = toy_solver(Some(200));
    while s.step() {}
    assert_eq!(s.solutions.len(), 0);
}

#[test]
fn real_puzzle_solver_starts_with_block_zero() {
    let s = solver(true);
    assert_eq!(s.block_count(), 9);
    let stack = s.stack();
    assert_eq!(stack.len(), 1);
    assert_eq!((stack[0].1, stack[0].2, stack[0].3, stack[0].4), (0, 0, 0, 0));
    assert_eq!(s.rot_blocks[0].len(), 6);
    assert!(!s.first_block_quarter);
    let labeled = solver(false);
    assert_eq!(labeled.rot_blocks[0].len(), 24);
    assert!(labeled.first_block_quarter);
    assert_eq!(labeled.target, Some(100));
    // block 0 spans 9 of the 12 rows; its top face is not on the outer face
    assert_eq!(labeled.face_sums, [43, 0, 7, 0, 0, 14]);
}

#[test]
fn print_state_of_a_single_cube() {
    let cube = brick(1, 1, 1, [1, 2, 3, 4, 5, 106]);
    let rot_blocks = vec![vec![cube]];
    let cell = BlockInPuzzle { block_id: 0, rot_id: 0, position: 0 };
    let text = print_state(1, 1, 1, &rot_blocks, &vec![Some(cell)]);
    assert_eq!(
        text,
        "Front:\n01 \nBack:\n02 \nLeft:\n03 \nRight:\n04 \nTop:\n05 \nBottom:\n106 \n"
    );
    let empty = print_state(1, 1, 1, &rot_blocks, &vec![None]);
    assert_eq!(empty, "Front:\n \nBack:\n \nLeft:\n \nRight:\n \nTop:\n \nBottom:\n \n");
}

#[test]
fn print_state_grid_order() {
    // a 2 x 1 x 1 puzzle with a 1 x 1 x 1 cube at x = 0 only
    let cube = brick(1, 1, 1, [11, 12, 13, 14, 15, 16]);
    let rot_blocks = vec![vec![cube]];
    let cell = BlockInPuzzle { block_id: 0, rot_id: 0, position: 0 };
    let text = print_state(2, 1, 1, &rot_blocks, &vec![Some(cell), None]);
    // rows run from the top (x = 1) down
    assert_eq!(
        text,
        "Front:\n \n11 \nBack:\n \n12 \nLeft:\n \n13 \nRight:\n \n14 \nTop:\n \nBottom:\n16 \n"
    );
}

#[test]
fn solutions_text_of_the_toy() {
    let mut s = toy_solver(Some(12));
    while s.step() {}
    let texts = s.solutions();
    assert_eq!(texts.len(), 8);
    for text in &texts {
        assert!(text.starts_with("Front:\n"));
        assert_eq!(text.lines().count(), 6 + 2 + 2 + 2 + 2 + 1 + 1);
    }
}

fn inv_face(block: usize, k: usize) -> Face {
    inventory_block(block).faces[k]
}

#[test]
fn corners_and_spin() {
    let top = inv_face(0, 4);
    let left = inv_face(0, 2);
    let front = inv_face(0, 0);
    let corner = find_corner(&vec![top], &vec![left], &vec![front]).expect("one corner");
    assert_eq!(corner, (top, left, front));
    // the face on the other side does not make a corner
    assert_eq!(find_corner(&vec![top], &vec![inv_face(0, 5)], &vec![front]), None);
    // two corners: none is returned
    assert_eq!(find_corner(&vec![top], &vec![left], &vec![front, inv_face(0, 1)]), None);
    // faces of different blocks
    assert_eq!(find_corner(&vec![top], &vec![inv_face(1, 2)], &vec![front]), None);

    let mut labels = vec![None; 54];
    labels[4] = Some(Dir::Top);
    labels[2] = Some(Dir::Left);
    labels[0] = Some(Dir::Front);
    assert!(is_corner_possible(&corner, &labels));
    labels[0] = Some(Dir::Back);
    assert!(!is_corner_possible(&corner, &labels));
    labels[0] = None;
    assert!(!is_corner_possible(&corner, &labels));
}

#[test]
fn propagation_sets_opposite_faces() {
    let top = inv_face(0, 4);
    let labels = propagate(vec![None; 54], &vec![(vec![top], Dir::Top)]).expect("no conflict");
    assert_eq!(labels[4], Some(Dir::Top));
    assert_eq!(labels[5], Some(Dir::Bottom));
    assert_eq!(labels.iter().filter(|l| l.is_some()).count(), 2);
    // the bottom face cannot go on top as well
    let conflict = propagate(
        vec![None; 54],
        &vec![(vec![top], Dir::Top), (vec![inv_face(0, 5)], Dir::Top)],
    );
    assert_eq!(conflict, None);
    let mut seeded = vec![None; 54];
    seeded[4] = Some(Dir::Left);
    assert_eq!(propagate(seeded, &vec![(vec![top], Dir::Top)]), None);
}

#[test]
fn six_combo_of_one_block() {
    // a single block seen from all six sides
    let f = |k| vec![inv_face(0, k)];
    let pairs_s = (f(4), f(5));
    let pairs_m = (f(2), f(3));
    let pairs_l = (f(0), f(1));
    assert!(compatible_six_combo(&pairs_s, &pairs_m, &pairs_l));
    // swapping two sides of one pair flips the spin of some corners
    let swapped = (f(3), f(2));
    assert!(compatible_six_combo(&pairs_s, &swapped, &pairs_l));
    // a face that is not opposite breaks the corners
    let wrong = (f(0), f(3));
    assert!(!compatible_six_combo(&pairs_s, &wrong, &pairs_l));
    let labels = can_propagate(&pairs_s, &pairs_m, &pairs_l, vec![None; 54], Dir::Front)
        .expect("consistent");
    assert_eq!(labels[0], Some(Dir::Front));
    assert_eq!(labels[1], Some(Dir::Back));
}

#[test]
fn combinations_and_pairs() {
    let blocks = inventory();
    let faces: Vec<Face> = blocks.iter().flat_map(|b| b.faces).collect();
    // 9 x 6 faces that tile a 9 x 6 rectangle on their own and sum to 43
    let combos = combinations_to_n(&faces, 9, 6, 43);
    assert!(!combos.is_empty());
    for combo in &combos {
        let sum: u32 = combo.iter().map(|f| f.value as u32).sum();
        assert_eq!(sum, 43);
        let area: u32 = combo.iter().map(|f| f.long as u32 * f.short as u32).sum();
        assert_eq!(area, 54);
    }
    assert!(combos.contains(&vec![faces[0]]));
    // a combination holding a face too large for the target pairs with
    // nothing, on either side
    let big = match_combos_in_pairs(vec![vec![faces[4]], vec![faces[6]]], 6, 5);
    assert_eq!(big.len(), 0);
    // the same block's front and back cannot stand on two opposite 9 x 6
    // faces of an area class where the block does not span the puzzle
    let pairs = match_combos_in_pairs(vec![vec![faces[0]], vec![faces[1]]], 9, 6);
    assert_eq!(pairs.len(), 1);
    assert_eq!(pairs[0], (vec![faces[0]], vec![faces[1]]));
    let none = match_combos_in_pairs(vec![vec![faces[0]], vec![faces[2]]], 9, 6);
    assert!(none.is_empty());
}
