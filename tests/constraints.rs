use cuboid_puzzle::common::{Dir, Face};
use cuboid_puzzle::constraints::{form_a_rectangle, place};

fn face(value: u8, long: u8, short: u8, block: u8, dir: Dir) -> Face {
    Face {
        value,
        long,
        short,
        block,
        dir,
    }
}

#[test]
fn form_a_rectangle_works_neg() {
    assert!(!form_a_rectangle(
        2,
        2,
        &[
            face(1, 1, 1, 2, Dir::Top),
            face(2, 2, 1, 1, Dir::Back),
            face(3, 2, 1, 8, Dir::Front),
        ]
    ));
}

#[test]
fn form_a_rectangle_works_pos_1() {
    assert!(form_a_rectangle(
        11,
        9,
        &[
            face(30, 5, 5, 2, Dir::Top),
            face(31, 9, 6, 1, Dir::Back),
            face(39, 5, 4, 8, Dir::Front),
        ]
    ));
}

#[test]
fn form_a_rectangle_works_pos_2() {
    assert!(form_a_rectangle(
        4,
        3,
        &[
            face(4, 4, 1, 0, Dir::Top),
            face(2, 2, 1, 0, Dir::Back),
            face(6, 3, 2, 0, Dir::Front),
        ]
    ));
}

#[test]
fn form_a_rectangle_works_pos_3() {
    assert!(form_a_rectangle(
        6,
        4,
        &[
            face(1, 1, 1, 0, Dir::Top),
            face(2, 2, 1, 0, Dir::Back),
            face(3, 3, 1, 0, Dir::Front),
            face(4, 4, 1, 0, Dir::Front),
            face(6, 3, 2, 0, Dir::Front),
            face(8, 4, 2, 0, Dir::Front),
        ]
    ));
}

#[test]
fn form_a_rectangle_empty_faces_do_not_tile() {
    assert!(!form_a_rectangle(2, 1, &[]));
}

#[test]
fn form_a_rectangle_single_face_turned() {
    // a 1 x 2 target is tiled by a 2 x 1 face once turned
    assert!(form_a_rectangle(1, 2, &[face(5, 2, 1, 0, Dir::Left)]));
    // too much area
    assert!(!form_a_rectangle(
        1,
        2,
        &[face(5, 2, 1, 0, Dir::Left), face(5, 1, 1, 1, Dir::Left)]
    ));
}

#[test]
fn place_fills_piece_and_finds_next_start() {
    let state = vec![0u8; 6];
    let placed = place(3, 2, &(0, 0), &state, 2, 1, 7);
    let (next, new_state) = placed.expect("the piece fits");
    assert_eq!(new_state, vec![7, 7, 0, 0, 0, 0]);
    assert_eq!(next, Some((2, 0)));
}

#[test]
fn place_rejects_overlap_and_overflow() {
    let state = vec![7u8, 7, 0, 0, 0, 0];
    assert!(place(3, 2, &(1, 0), &state, 1, 1, 3).is_none());
    assert!(place(3, 2, &(2, 0), &state, 2, 1, 3).is_none());
    let (next, new_state) = place(3, 2, &(2, 0), &state, 1, 2, 3).expect("fits");
    assert_eq!(new_state, vec![7, 7, 3, 0, 0, 3]);
    assert_eq!(next, Some((0, 1)));
}

#[test]
fn place_reports_full_rectangle() {
    let state = vec![1u8, 1, 0, 0];
    let (next, new_state) = place(2, 2, &(0, 1), &state, 2, 1, 4).expect("fits");
    assert_eq!(new_state, vec![1, 1, 4, 4]);
    assert_eq!(next, None);
}
