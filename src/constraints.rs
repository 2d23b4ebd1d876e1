use crate::common::{
    dir_index, parallel, prod_dir, face_area, inventory_face, opposite_dir, Dir, Face, AREA_L, AREA_M, AREA_S, BLOCK_COUNT,
    BLOCK_DIMS, DEPTH, HEIGHT, WIDTH,
};
use vstd::prelude::*;

verus! {

// The rectangle tiler. A rectangle of `l` x `s` unit cells is held as a list
// of `l * s` values, row by row: cell `c` has column `c % l` and row `c / l`;
// zero marks an empty cell.

/// Cell `c` lies inside the piece of `px` x `py` cells whose top-left
/// corner is at column `sx`, row `sy`.
pub open spec fn in_piece(l: int, sx: int, sy: int, px: int, py: int, c: int) -> bool {
    &&& sx <= c % l < sx + px
    &&& sy <= c / l < sy + py
}

/// The piece lies inside the rectangle and covers only empty cells.
pub open spec fn can_put(
    l: int,
    s: int,
    state: Seq<u8>,
    sx: int,
    sy: int,
    px: int,
    py: int,
) -> bool {
    &&& sx + px <= l
    &&& sy + py <= s
    &&& forall|c: int|
        0 <= c < state.len() && #[trigger] in_piece(l, sx, sy, px, py, c) ==> state[c] == 0
}

/// The cells with the piece written into them, with value `v`.
pub open spec fn put(
    l: int,
    state: Seq<u8>,
    sx: int,
    sy: int,
    px: int,
    py: int,
    v: u8,
) -> Seq<u8> {
    Seq::new(state.len(), |c: int| if in_piece(l, sx, sy, px, py, c) { v } else { state[c] })
}

/// Cell `c` is the lowest empty cell.
pub open spec fn is_first_empty(state: Seq<u8>, c: int) -> bool {
    &&& 0 <= c < state.len()
    &&& state[c] == 0
    &&& forall|c2: int| 0 <= c2 < c ==> state[c2] != 0
}

pub open spec fn is_full(state: Seq<u8>) -> bool {
    forall|c: int| 0 <= c < state.len() ==> state[c] != 0
}

/// The lowest empty cell, when there is one.
pub open spec fn first_empty(state: Seq<u8>) -> int {
    choose|c: int| is_first_empty(state, c)
}

/// Whether the faces of `faces` from index `i` on can start a tiling: one of
/// them, in its natural orientation or turned (when not square), goes at
/// the start point (`sx`, `sy`); then, when that fills the rectangle, no
/// face may be left, and otherwise the other faces must go on tiling from
/// the new lowest empty cell.
pub open spec fn tile_search(
    l: int,
    s: int,
    sx: int,
    sy: int,
    state: Seq<u8>,
    faces: Seq<Face>,
    i: int,
) -> bool
    decreases faces.len(), faces.len() - i,
{
    if i < 0 || i >= faces.len() {
        false
    } else {
        let f = faces[i];
        let rest = faces.remove(i);
        let natural = can_put(l, s, state, sx, sy, f.long as int, f.short as int) && {
            let st = put(l, state, sx, sy, f.long as int, f.short as int, f.value);
            if is_full(st) {
                rest.len() == 0
            } else {
                tile_search(l, s, first_empty(st) % l, first_empty(st) / l, st, rest, 0)
            }
        };
        let turned = f.long != f.short && can_put(
            l,
            s,
            state,
            sx,
            sy,
            f.short as int,
            f.long as int,
        ) && {
            let st = put(l, state, sx, sy, f.short as int, f.long as int, f.value);
            if is_full(st) {
                rest.len() == 0
            } else {
                tile_search(l, s, first_empty(st) % l, first_empty(st) / l, st, rest, 0)
            }
        };
        natural || turned || tile_search(l, s, sx, sy, state, faces, i + 1)
    }
}

/// The faces tile the empty `l` x `s` rectangle: taken in some order, each
/// put in one of its orientations at the lowest empty cell, they fill it
/// exactly, without overlap.
pub open spec fn tiles(l: int, s: int, faces: Seq<Face>) -> bool {
    tile_search(l, s, 0, 0, Seq::new((l * s) as nat, |c: int| 0u8), faces, 0)
}

/// Tries to put a piece of `piece_x` x `piece_y` cells with value
/// `piece_val` at `start_point` in the rectangle. On success returns the
/// new lowest empty cell as (column, row), or none when the rectangle is
/// full, and the new cells.
pub fn place(
    rect_long: u8,
    rect_short: u8,
    start_point: &(u8, u8),
    state: &Vec<u8>,
    piece_x: u8,
    piece_y: u8,
    piece_val: u8,
) -> (r: Option<(Option<(u8, u8)>, Vec<u8>)>)
    requires
        1 <= rect_long,
        state@.len() == rect_long * rect_short,
    ensures
        r is Some == can_put(
            rect_long as int,
            rect_short as int,
            state@,
            start_point.0 as int,
            start_point.1 as int,
            piece_x as int,
            piece_y as int,
        ),
        r matches Some((next, new_state)) ==> {
            &&& new_state@ == put(
                rect_long as int,
                state@,
                start_point.0 as int,
                start_point.1 as int,
                piece_x as int,
                piece_y as int,
                piece_val,
            )
            &&& next is None <==> is_full(new_state@)
            &&& next matches Some((x, y)) ==> x < rect_long && is_first_empty(
                new_state@,
                y * rect_long + x,
            )
        },
{
    let l = rect_long as usize;
    let x_start = start_point.0 as usize;
    let x_end = x_start + piece_x as usize;
    let y_start = start_point.1 as usize;
    let y_end = y_start + piece_y as usize;
    if !(x_end <= l && y_end <= rect_short as usize) {
        return None;
    }
    let size = state.len();
    let mut new_state: Vec<u8> = Vec::new();
    let mut c: usize = 0;
    while c < size
        invariant
            l == rect_long,
            1 <= l,
            size == state@.len(),
            c <= size,
            x_start == start_point.0,
            y_start == start_point.1,
            x_end == x_start + piece_x,
            y_end == y_start + piece_y,
            new_state@.len() == c,
            forall|c2: int|
                0 <= c2 < c ==> #[trigger] new_state@[c2] == if in_piece(
                    l as int,
                    x_start as int,
                    y_start as int,
                    piece_x as int,
                    piece_y as int,
                    c2,
                ) {
                    piece_val
                } else {
                    state@[c2]
                },
            forall|c2: int|
                0 <= c2 < c && #[trigger] in_piece(
                    l as int,
                    x_start as int,
                    y_start as int,
                    piece_x as int,
                    piece_y as int,
                    c2,
                ) ==> state@[c2] == 0,
        decreases size - c,
    {
        let i = c % l;
        let j = c / l;
        if x_start <= i && i < x_end && y_start <= j && j < y_end {
            if state[c] != 0 {
                assert(in_piece(
                    l as int,
                    x_start as int,
                    y_start as int,
                    piece_x as int,
                    piece_y as int,
                    c as int,
                ));
                return None;
            }
            new_state.push(piece_val);
        } else {
            new_state.push(state[c]);
        }
        c += 1;
    }
    assert(new_state@ =~= put(
        l as int,
        state@,
        x_start as int,
        y_start as int,
        piece_x as int,
        piece_y as int,
        piece_val,
    ));
    let mut idx: usize = 0;
    while idx < size && new_state[idx] != 0
        invariant
            idx <= size,
            size == new_state@.len(),
            forall|c2: int| 0 <= c2 < idx ==> new_state@[c2] != 0,
        decreases size - idx,
    {
        idx += 1;
    }
    if idx == size {
        Some((None, new_state))
    } else {
        proof {
            assert(is_first_empty(new_state@, idx as int));
            vstd::arithmetic::div_mod::lemma_fundamental_div_mod(idx as int, l as int);
            vstd::arithmetic::div_mod::lemma_div_is_ordered(idx as int, size as int, l as int);
            assert(size == l * rect_short);
            vstd::arithmetic::div_mod::lemma_div_by_multiple(rect_short as int, l as int);
            assert((l * rect_short) / (l as int) == rect_short as int) by {
                vstd::arithmetic::mul::lemma_mul_is_commutative(l as int, rect_short as int);
            }
            vstd::arithmetic::div_mod::lemma_div_is_ordered(idx as int, (size - 1) as int, l as int);
            assert((idx / l) <= rect_short);
            assert(idx / l < rect_short) by {
                assert(idx as int == (l as int) * (idx as int / l as int) + (idx as int % l as int));
                if idx / l >= rect_short {
                    assert((l as int) * (idx as int / l as int) >= (l as int) * (rect_short as int))
                        by (nonlinear_arith)
                        requires
                            idx as int / l as int >= rect_short as int,
                            l >= 1,
                    ;
                }
            }
        }
        let x = (idx % l) as u8;
        let y = (idx / l) as u8;
        proof {
            vstd::arithmetic::div_mod::lemma_mod_bound(idx as int, l as int);
            assert(x as int == idx as int % l as int);
            assert(y as int == idx as int / l as int);
            vstd::arithmetic::div_mod::lemma_fundamental_div_mod(idx as int, l as int);
            vstd::arithmetic::mul::lemma_mul_is_commutative(l as int, idx as int / l as int);
            assert(y * rect_long + x == idx);
        }
        Some((Some((x, y)), new_state))
    }
}

/// The lowest empty cell is unique.
proof fn lemma_first_empty_is(state: Seq<u8>, c: int)
    requires
        is_first_empty(state, c),
    ensures
        first_empty(state) == c,
{
    let c2 = first_empty(state);
    assert(is_first_empty(state, c2));
    if c2 < c {
        assert(state[c2] != 0);
    } else if c < c2 {
        assert(state[c] != 0);
    }
}

/// What one try of `tile_search` comes to, told by the result of `place`.
proof fn lemma_try_value(
    l: int,
    s: int,
    sx: int,
    sy: int,
    state: Seq<u8>,
    px: int,
    py: int,
    v: u8,
    rest: Seq<Face>,
    next: Option<(u8, u8)>,
    st: Seq<u8>,
)
    requires
        l >= 1,
        can_put(l, s, state, sx, sy, px, py),
        st == put(l, state, sx, sy, px, py, v),
        next is None <==> is_full(st),
        next matches Some((x, y)) ==> x < l && is_first_empty(st, y * l + x),
    ensures
        (if is_full(st) {
            rest.len() == 0
        } else {
            tile_search(l, s, first_empty(st) % l, first_empty(st) / l, st, rest, 0)
        }) == match next {
            Some((x, y)) => tile_search(l, s, x as int, y as int, st, rest, 0),
            None => rest.len() == 0,
        },
{
    if let Some((x, y)) = next {
        lemma_first_empty_is(st, y * l + x);
        vstd::arithmetic::div_mod::lemma_fundamental_div_mod_converse(
            y * l + x,
            l,
            y as int,
            x as int,
        );
    }
}

/// A candidate of the tiling search: the start point, the cells, and the
/// faces left to place.
pub open spec fn cand_tiles(l: int, s: int, c: ((u8, u8), Vec<u8>, Vec<Face>)) -> bool {
    tile_search(l, s, c.0.0 as int, c.0.1 as int, c.1@, c.2@, 0)
}

/// Some candidate of `cs` from index `from` on leads to a tiling.
pub open spec fn any_tiles(l: int, s: int, cs: Seq<((u8, u8), Vec<u8>, Vec<Face>)>, from: int) -> bool {
    exists|j: int| from <= j < cs.len() && #[trigger] cand_tiles(l, s, cs[j])
}

proof fn lemma_any_tiles_push(
    l: int,
    s: int,
    cs: Seq<((u8, u8), Vec<u8>, Vec<Face>)>,
    c: ((u8, u8), Vec<u8>, Vec<Face>),
)
    ensures
        any_tiles(l, s, cs.push(c), 0) == (any_tiles(l, s, cs, 0) || cand_tiles(l, s, c)),
{
    if any_tiles(l, s, cs, 0) {
        let j = choose|j: int| 0 <= j < cs.len() && #[trigger] cand_tiles(l, s, cs[j]);
        assert(cs.push(c)[j] == cs[j]);
    }
    if cand_tiles(l, s, c) {
        assert(cs.push(c)[cs.len() as int] == c);
    }
    if any_tiles(l, s, cs.push(c), 0) {
        let j = choose|j: int| 0 <= j < cs.len() + 1 && #[trigger] cand_tiles(l, s, cs.push(c)[j]);
        if j < cs.len() {
            assert(cs.push(c)[j] == cs[j]);
        }
    }
}

proof fn lemma_any_tiles_next(l: int, s: int, cs: Seq<((u8, u8), Vec<u8>, Vec<Face>)>, from: int)
    requires
        0 <= from < cs.len(),
    ensures
        any_tiles(l, s, cs, from) == (cand_tiles(l, s, cs[from]) || any_tiles(l, s, cs, from + 1)),
{
    if any_tiles(l, s, cs, from) {
        let j = choose|j: int| from <= j < cs.len() && #[trigger] cand_tiles(l, s, cs[j]);
        if j > from {
            assert(any_tiles(l, s, cs, from + 1));
        }
    }
}

fn copy_faces(faces: &Vec<Face>) -> (r: Vec<Face>)
    ensures
        r@ == faces@,
{
    let mut r: Vec<Face> = Vec::new();
    let mut i: usize = 0;
    while i < faces.len()
        invariant
            i <= faces@.len(),
            r@ =~= faces@.take(i as int),
        decreases faces@.len() - i,
    {
        r.push(faces[i]);
        i += 1;
    }
    assert(faces@.take(i as int) =~= faces@);
    r
}

/// Whether the faces, each in its natural or its turned orientation, tile
/// the `long` x `short` rectangle exactly. The search goes breadth first:
/// each candidate puts one more face at the lowest empty cell.
pub fn form_a_rectangle(long: u8, short: u8, faces: &[Face]) -> (r: bool)
    requires
        1 <= long,
    ensures
        r == tiles(long as int, short as int, faces@),
{
    let ghost l = long as int;
    let ghost s = short as int;
    let long_cells = long as usize;
    let short_cells = short as usize;
    assert(long_cells * short_cells <= 255 * 255) by (nonlinear_arith)
        requires
            long_cells <= 255,
            short_cells <= 255,
    ;
    let size = long_cells * short_cells;
    let mut start_state: Vec<u8> = Vec::new();
    let mut c: usize = 0;
    while c < size
        invariant
            c <= size,
            start_state@ =~= Seq::new(c as nat, |c2: int| 0u8),
        decreases size - c,
    {
        start_state.push(0);
        c += 1;
    }
    let mut all: Vec<Face> = Vec::new();
    let mut i: usize = 0;
    while i < faces.len()
        invariant
            i <= faces@.len(),
            all@ =~= faces@.take(i as int),
        decreases faces@.len() - i,
    {
        all.push(faces[i]);
        i += 1;
    }
    assert(faces@.take(i as int) =~= faces@);
    let mut candidates: Vec<((u8, u8), Vec<u8>, Vec<Face>)> = Vec::new();
    candidates.push(((0, 0), start_state, all));
    proof {
        assert(cand_tiles(l, s, candidates@[0]) == tiles(l, s, faces@));
        lemma_any_tiles_next(l, s, candidates@, 0);
        assert(!any_tiles(l, s, candidates@, 1));
    }
    let ghost level: int = 0;
    while candidates.len() > 0
        invariant
            l == long,
            s == short,
            1 <= l,
            size == l * s,
            0 <= level <= faces@.len() + 1,
            candidates@.len() > 0 ==> level <= faces@.len(),
            forall|j: int|
                0 <= j < candidates@.len() ==> (#[trigger] candidates@[j]).1@.len() == size
                    && candidates@[j].2@.len() == faces@.len() - level,
            tiles(l, s, faces@) == any_tiles(l, s, candidates@, 0),
        decreases faces@.len() + 1 - level,
    {
        let mut new_candidates: Vec<((u8, u8), Vec<u8>, Vec<Face>)> = Vec::new();
        let mut ci: usize = 0;
        while ci < candidates.len()
            invariant
                l == long,
                s == short,
                1 <= l,
                size == l * s,
                0 <= level <= faces@.len(),
                ci <= candidates@.len(),
                forall|j: int|
                    0 <= j < candidates@.len() ==> (#[trigger] candidates@[j]).1@.len() == size
                        && candidates@[j].2@.len() == faces@.len() - level,
                forall|j: int|
                    0 <= j < new_candidates@.len() ==> (#[trigger] new_candidates@[j]).1@.len()
                        == size && new_candidates@[j].2@.len() == faces@.len() - level - 1,
                tiles(l, s, faces@) == (any_tiles(l, s, candidates@, ci as int) || any_tiles(
                    l,
                    s,
                    new_candidates@,
                    0,
                )),
            decreases candidates@.len() - ci,
        {
            let start_point = candidates[ci].0;
            let state = &candidates[ci].1;
            let cfaces = &candidates[ci].2;
            proof {
                lemma_any_tiles_next(l, s, candidates@, ci as int);
            }
            let mut i: usize = 0;
            while i < cfaces.len()
                invariant
                    l == long,
                    s == short,
                    1 <= l,
                    size == l * s,
                    0 <= level <= faces@.len(),
                    ci < candidates@.len(),
                    start_point == candidates@[ci as int].0,
                    *state == candidates@[ci as int].1,
                    *cfaces == candidates@[ci as int].2,
                    state@.len() == size,
                    cfaces@.len() == faces@.len() - level,
                    forall|j: int|
                        0 <= j < new_candidates@.len() ==> (#[trigger] new_candidates@[j]).1@.len()
                            == size && new_candidates@[j].2@.len() == faces@.len() - level - 1,
                    tiles(l, s, faces@) == (tile_search(
                        l,
                        s,
                        start_point.0 as int,
                        start_point.1 as int,
                        state@,
                        cfaces@,
                        i as int,
                    ) || any_tiles(l, s, candidates@, ci + 1) || any_tiles(
                        l,
                        s,
                        new_candidates@,
                        0,
                    )),
                decreases cfaces@.len() - i,
            {
                let ghost sx = start_point.0 as int;
                let ghost sy = start_point.1 as int;
                let mut rem = copy_faces(cfaces);
                let face = rem.remove(i);
                let ghost rest = rem@;
                assert(rest == cfaces@.remove(i as int));
                let ghost before = new_candidates@;
                // the face in its natural orientation
                let natural = place(long, short, &start_point, state, face.long, face.short, face.value);
                let ghost nat_value = can_put(l, s, state@, sx, sy, face.long as int, face.short as int) && {
                    let st = put(l, state@, sx, sy, face.long as int, face.short as int, face.value);
                    if is_full(st) {
                        rest.len() == 0
                    } else {
                        tile_search(l, s, first_empty(st) % l, first_empty(st) / l, st, rest, 0)
                    }
                };
                match natural {
                    Some((Some(next), new_state)) => {
                        proof {
                            lemma_try_value(l, s, sx, sy, state@, face.long as int, face.short as int, face.value, rest, Some(next), new_state@);
                        }
                        let ghost cand = (next, new_state, rem);
                        new_candidates.push((next, new_state, copy_faces(&rem)));
                        proof {
                            lemma_any_tiles_push(l, s, before, new_candidates@.last());
                            assert(new_candidates@ == before.push(new_candidates@.last()));
                        }
                    },
                    Some((None, new_state)) => {
                        proof {
                            lemma_try_value(l, s, sx, sy, state@, face.long as int, face.short as int, face.value, rest, None, new_state@);
                        }
                        if rem.len() == 0 {
                            return true;
                        }
                    },
                    None => {},
                }
                let ghost mid = new_candidates@;
                assert(any_tiles(l, s, mid, 0) == (any_tiles(l, s, before, 0) || nat_value));
                // the face turned
                let ghost turn_value = face.long != face.short && can_put(l, s, state@, sx, sy, face.short as int, face.long as int) && {
                    let st = put(l, state@, sx, sy, face.short as int, face.long as int, face.value);
                    if is_full(st) {
                        rest.len() == 0
                    } else {
                        tile_search(l, s, first_empty(st) % l, first_empty(st) / l, st, rest, 0)
                    }
                };
                if face.long != face.short {
                    let turned = place(long, short, &start_point, state, face.short, face.long, face.value);
                    match turned {
                        Some((Some(next), new_state)) => {
                            proof {
                                lemma_try_value(l, s, sx, sy, state@, face.short as int, face.long as int, face.value, rest, Some(next), new_state@);
                            }
                            new_candidates.push((next, new_state, copy_faces(&rem)));
                            proof {
                                lemma_any_tiles_push(l, s, mid, new_candidates@.last());
                                assert(new_candidates@ == mid.push(new_candidates@.last()));
                            }
                        },
                        Some((None, new_state)) => {
                            proof {
                                lemma_try_value(l, s, sx, sy, state@, face.short as int, face.long as int, face.value, rest, None, new_state@);
                            }
                            if rem.len() == 0 {
                                return true;
                            }
                        },
                        None => {},
                    }
                }
                assert(any_tiles(l, s, new_candidates@, 0) == (any_tiles(l, s, mid, 0) || turn_value));
                assert(forall|j: int|
                    0 <= j < new_candidates@.len() ==> (#[trigger] new_candidates@[j]).1@.len()
                        == size && new_candidates@[j].2@.len() == faces@.len() - level - 1) by {
                    assert forall|j: int| 0 <= j < new_candidates@.len() implies (#[trigger] new_candidates@[j]).1@.len()
                        == size && new_candidates@[j].2@.len() == faces@.len() - level - 1 by {
                        if j < before.len() {
                            assert(new_candidates@[j] == before[j]);
                        } else if j < mid.len() {
                            assert(new_candidates@[j] == mid[j]);
                        }
                    }
                }
                i += 1;
            }
            ci += 1;
        }
        proof {
            assert(!any_tiles(l, s, candidates@, candidates@.len() as int));
            if new_candidates@.len() > 0 {
                assert(new_candidates@[0].2@.len() == faces@.len() - level - 1);
            }
            level = level + 1;
        }
        candidates = new_candidates;
    }
    false
}

// The pair filter: candidate sets of block faces for the outer faces of the
// puzzle, paired as opposite sides, then checked for a consistent labeling
// of every block's sides.

/// Sum of the areas of the faces.
pub open spec fn area_total(faces: Seq<Face>) -> int
    decreases faces.len(),
{
    if faces.len() == 0 {
        0
    } else {
        area_total(faces.drop_last()) + face_area(faces.last())
    }
}

/// Sum of the values of the faces.
pub open spec fn value_total(faces: Seq<Face>) -> int
    decreases faces.len(),
{
    if faces.len() == 0 {
        0
    } else {
        value_total(faces.drop_last()) + faces.last().value
    }
}

/// No two faces come from the same block.
pub open spec fn distinct_blocks(faces: Seq<Face>) -> bool {
    forall|i: int, j: int| 0 <= i < j < faces.len() ==> (#[trigger] faces[i]).block != (
    #[trigger] faces[j]).block
}

/// A set of faces that can make up an outer face of `long` x `short` with
/// values summing to `n`: no two faces from one block, the whole area
/// covered, and the faces tiling the rectangle.
pub open spec fn is_combination(faces: Seq<Face>, long: int, short: int, n: int) -> bool {
    &&& distinct_blocks(faces)
    &&& area_total(faces) == long * short
    &&& value_total(faces) == n
    &&& tiles(long, short, faces)
}

proof fn lemma_totals_push(faces: Seq<Face>, f: Face)
    ensures
        area_total(faces.push(f)) == area_total(faces) + face_area(f),
        value_total(faces.push(f)) == value_total(faces) + f.value,
{
    assert(faces.push(f).drop_last() =~= faces);
}

/// A block of `cand` is the block of `f`.
pub open spec fn uses_block(cand: Seq<Face>, b: u8) -> bool {
    exists|x: int| 0 <= x < cand.len() && (#[trigger] cand[x]).block == b
}

/// The combinations reached by growing `cand` with one of the faces of
/// `rem` from index `i` on (each face grows it with the faces after it in
/// turn): a face of a block already used is skipped; a growth whose area
/// passes the target's is dropped; one that makes a combination is kept;
/// one whose sum is still below `n` grows further; any other is dropped.
pub open spec fn grown(cand: Seq<Face>, rem: Seq<Face>, i: int, long: int, short: int, n: int) -> Set<
    Seq<Face>,
>
    decreases rem.len(), rem.len() - i,
{
    if i < 0 || i >= rem.len() {
        Set::empty()
    } else {
        let f = rem[i];
        let nc = cand.push(f);
        let here = if uses_block(cand, f.block) || area_total(nc) > long * short {
            Set::empty()
        } else if value_total(nc) == n && area_total(nc) == long * short && tiles(long, short, nc) {
            set![nc]
        } else if value_total(nc) < n {
            grown(nc, rem.skip(i + 1), 0, long, short, n)
        } else {
            Set::empty()
        };
        here.union(grown(cand, rem, i + 1, long, short, n))
    }
}

/// The combinations reached from the candidates of `cs` from index `from` on.
pub open spec fn grown_all(
    cs: Seq<(Vec<Face>, Vec<Face>, usize, usize)>,
    from: int,
    long: int,
    short: int,
    n: int,
) -> Set<Seq<Face>>
    decreases cs.len() - from,
{
    if from < 0 || from >= cs.len() {
        Set::empty()
    } else {
        grown(cs[from].0@, cs[from].1@, 0, long, short, n).union(
            grown_all(cs, from + 1, long, short, n),
        )
    }
}

proof fn lemma_grown_all_push(
    cs: Seq<(Vec<Face>, Vec<Face>, usize, usize)>,
    c: (Vec<Face>, Vec<Face>, usize, usize),
    from: int,
    long: int,
    short: int,
    n: int,
)
    requires
        0 <= from <= cs.len(),
    ensures
        grown_all(cs.push(c), from, long, short, n) == grown_all(cs, from, long, short, n).union(
            grown(c.0@, c.1@, 0, long, short, n),
        ),
    decreases cs.len() - from,
{
    if from == cs.len() {
        assert(grown_all(cs.push(c), from + 1, long, short, n) =~= Set::empty());
        assert(grown_all(cs.push(c), from, long, short, n) =~= grown_all(cs, from, long, short, n).union(
            grown(c.0@, c.1@, 0, long, short, n),
        ));
    } else {
        lemma_grown_all_push(cs, c, from + 1, long, short, n);
        assert(cs.push(c)[from] == cs[from]);
        assert(grown_all(cs.push(c), from, long, short, n) =~= grown_all(cs, from, long, short, n).union(
            grown(c.0@, c.1@, 0, long, short, n),
        ));
    }
}

/// The combinations listed in `sols`.
pub open spec fn listed(sols: Seq<Vec<Face>>) -> Set<Seq<Face>> {
    Set::new(|s: Seq<Face>| exists|k: int| 0 <= k < sols.len() && (#[trigger] sols[k])@ == s)
}

proof fn lemma_listed_push(sols: Seq<Vec<Face>>, v: Vec<Face>)
    ensures
        listed(sols.push(v)) == listed(sols).insert(v@),
{
    assert forall|s: Seq<Face>| #[trigger] listed(sols.push(v)).contains(s) == listed(sols).insert(
        v@,
    ).contains(s) by {
        if listed(sols).contains(s) {
            let k = choose|k: int| 0 <= k < sols.len() && (#[trigger] sols[k])@ == s;
            assert(sols.push(v)[k] == sols[k]);
        }
        if s == v@ {
            assert(sols.push(v)[sols.len() as int] == v);
        }
        if listed(sols.push(v)).contains(s) {
            let k = choose|k: int| 0 <= k < sols.len() + 1 && (#[trigger] sols.push(v)[k])@ == s;
            if k < sols.len() {
                assert(sols.push(v)[k] == sols[k]);
            }
        }
    }
    assert(listed(sols.push(v)) =~= listed(sols).insert(v@));
}

fn same_faces(a: &Vec<Face>, b: &Vec<Face>) -> (r: bool)
    ensures
        r == (a@ == b@),
{
    if a.len() != b.len() {
        return false;
    }
    let mut i: usize = 0;
    while i < a.len()
        invariant
            a@.len() == b@.len(),
            i <= a@.len(),
            forall|j: int| 0 <= j < i ==> a@[j] == b@[j],
        decreases a@.len() - i,
    {
        if a[i] != b[i] {
            return false;
        }
        i += 1;
    }
    assert(a@ =~= b@);
    true
}

/// Whether `c` is among the combinations of `sols`.
fn is_listed(sols: &Vec<Vec<Face>>, c: &Vec<Face>) -> (r: bool)
    ensures
        r == listed(sols@).contains(c@),
{
    let mut k: usize = 0;
    while k < sols.len()
        invariant
            k <= sols@.len(),
            forall|j: int| 0 <= j < k ==> (#[trigger] sols@[j])@ != c@,
        decreases sols@.len() - k,
    {
        if same_faces(&sols[k], c) {
            return true;
        }
        k += 1;
    }
    false
}

/// The sets of faces, taken in list order, that make up an outer face of
/// `long` x `short` with values summing to `n`: exactly the combinations
/// that growing the empty set reaches (see `grown`). Candidates grow one
/// face at a time, level by level.
pub fn combinations_to_n(faces: &[Face], long: u8, short: u8, n: u8) -> (r: Vec<Vec<Face>>)
    requires
        1 <= long,
    ensures
        listed(r@) == grown(seq![], faces@, 0, long as int, short as int, n as int),
        // each combination is listed once
        forall|k1: int, k2: int|
            0 <= k1 < k2 < r@.len() ==> (#[trigger] r@[k1])@ != (#[trigger] r@[k2])@,
        forall|k: int|
            0 <= k < r@.len() ==> is_combination(
                (#[trigger] r@[k])@,
                long as int,
                short as int,
                n as int,
            ),
        from_inventory(faces@) ==> forall|k: int| 0 <= k < r@.len() ==> from_inventory(
            #[trigger] r@[k]@,
        ),
{
    let ghost l = long as int;
    let ghost s = short as int;
    let ghost nn = n as int;
    let ghost total = grown(seq![], faces@, 0, l, s, nn);
    let long_cells = long as usize;
    let short_cells = short as usize;
    assert(long_cells * short_cells <= 255 * 255) by (nonlinear_arith)
        requires
            long_cells <= 255,
            short_cells <= 255,
    ;
    let area = long_cells * short_cells;
    let mut solutions: Vec<Vec<Face>> = Vec::new();
    let mut all: Vec<Face> = Vec::new();
    let mut i: usize = 0;
    while i < faces.len()
        invariant
            i <= faces@.len(),
            all@ =~= faces@.take(i as int),
        decreases faces@.len() - i,
    {
        all.push(faces[i]);
        i += 1;
    }
    // a candidate: the faces chosen, the faces after the last one chosen,
    // and the area and the sum of the faces chosen
    let mut candidates: Vec<(Vec<Face>, Vec<Face>, usize, usize)> = Vec::new();
    candidates.push((Vec::new(), all, 0, 0));
    proof {
        assert(faces@.take(i as int) =~= faces@);
        assert(grown_all(candidates@, 1, l, s, nn) =~= Set::empty());
        assert(candidates@[0].0@ =~= Seq::<Face>::empty());
        assert(listed(solutions@) =~= Set::empty());
        assert(listed(solutions@).union(grown_all(candidates@, 0, l, s, nn)) =~= total);
    }
    let ghost level: int = 0;
    while candidates.len() > 0
        invariant
            1 <= long,
            l == long,
            s == short,
            nn == n,
            total == grown(seq![], faces@, 0, l, s, nn),
            area == long * short,
            area <= 255 * 255,
            0 <= level <= faces@.len() + 1,
            candidates@.len() > 0 ==> level <= faces@.len(),
            forall|j: int|
                0 <= j < candidates@.len() ==> {
                    let c = #[trigger] candidates@[j];
                    &&& c.1@.len() <= faces@.len() - level
                    &&& distinct_blocks(c.0@)
                    &&& c.2 == area_total(c.0@)
                    &&& c.3 == value_total(c.0@)
                    &&& c.2 <= area
                    &&& c.3 < 256
                    &&& from_inventory(faces@) ==> from_inventory(c.0@) && from_inventory(c.1@)
                },
            from_inventory(faces@) ==> forall|k: int|
                0 <= k < solutions@.len() ==> from_inventory(#[trigger] solutions@[k]@),
            forall|k1: int, k2: int|
                0 <= k1 < k2 < solutions@.len() ==> (#[trigger] solutions@[k1])@ != (
                #[trigger] solutions@[k2])@,
            forall|k: int|
                0 <= k < solutions@.len() ==> is_combination(
                    (#[trigger] solutions@[k])@,
                    long as int,
                    short as int,
                    n as int,
                ),
            listed(solutions@).union(grown_all(candidates@, 0, l, s, nn)) == total,
        decreases faces@.len() + 1 - level,
    {
        let mut new_candidates: Vec<(Vec<Face>, Vec<Face>, usize, usize)> = Vec::new();
        let mut ci: usize = 0;
        proof {
            assert(grown_all(new_candidates@, 0, l, s, nn) =~= Set::empty());
            assert(listed(solutions@).union(grown_all(candidates@, 0, l, s, nn)).union(
                grown_all(new_candidates@, 0, l, s, nn),
            ) =~= total);
        }
        while ci < candidates.len()
            invariant
                1 <= long,
                l == long,
                s == short,
                nn == n,
                total == grown(seq![], faces@, 0, l, s, nn),
                area == long * short,
                area <= 255 * 255,
                0 <= level <= faces@.len(),
                ci <= candidates@.len(),
                forall|j: int|
                    0 <= j < candidates@.len() ==> {
                        let c = #[trigger] candidates@[j];
                        &&& c.1@.len() <= faces@.len() - level
                        &&& distinct_blocks(c.0@)
                        &&& c.2 == area_total(c.0@)
                        &&& c.3 == value_total(c.0@)
                        &&& c.2 <= area
                        &&& c.3 < 256
                        &&& from_inventory(faces@) ==> from_inventory(c.0@) && from_inventory(
                            c.1@,
                        )
                    },
                forall|j: int|
                    0 <= j < new_candidates@.len() ==> {
                        let c = #[trigger] new_candidates@[j];
                        &&& c.1@.len() <= faces@.len() - level - 1
                        &&& distinct_blocks(c.0@)
                        &&& c.2 == area_total(c.0@)
                        &&& c.3 == value_total(c.0@)
                        &&& c.2 <= area
                        &&& c.3 < 256
                        &&& from_inventory(faces@) ==> from_inventory(c.0@) && from_inventory(
                            c.1@,
                        )
                    },
                from_inventory(faces@) ==> forall|k: int|
                    0 <= k < solutions@.len() ==> from_inventory(#[trigger] solutions@[k]@),
                forall|k1: int, k2: int|
                    0 <= k1 < k2 < solutions@.len() ==> (#[trigger] solutions@[k1])@ != (
                    #[trigger] solutions@[k2])@,
                forall|k: int|
                    0 <= k < solutions@.len() ==> is_combination(
                        (#[trigger] solutions@[k])@,
                        long as int,
                        short as int,
                        n as int,
                    ),
                listed(solutions@).union(grown_all(candidates@, ci as int, l, s, nn)).union(
                    grown_all(new_candidates@, 0, l, s, nn),
                ) == total,
            decreases candidates@.len() - ci,
        {
            let candidate = &candidates[ci].0;
            let rem = &candidates[ci].1;
            let cand_area = candidates[ci].2;
            let cand_sum = candidates[ci].3;
            assert(candidates@[ci as int].1@.len() <= faces@.len() - level);
            proof {
                assert(grown_all(candidates@, ci as int, l, s, nn) == grown(
                    candidate@,
                    rem@,
                    0,
                    l,
                    s,
                    nn,
                ).union(grown_all(candidates@, ci + 1, l, s, nn)));
                assert(listed(solutions@).union(grown(candidate@, rem@, 0, l, s, nn)).union(
                    grown_all(candidates@, ci + 1, l, s, nn),
                ).union(grown_all(new_candidates@, 0, l, s, nn)) =~= total);
            }
            let mut i: usize = 0;
            while i < rem.len()
                invariant
                    1 <= long,
                    l == long,
                    s == short,
                    nn == n,
                    total == grown(seq![], faces@, 0, l, s, nn),
                    area == long * short,
                    area <= 255 * 255,
                    0 <= level <= faces@.len(),
                    ci < candidates@.len(),
                    *candidate == candidates@[ci as int].0,
                    *rem == candidates@[ci as int].1,
                    rem@.len() <= faces@.len() - level,
                    distinct_blocks(candidate@),
                    cand_area == area_total(candidate@),
                    cand_sum == value_total(candidate@),
                    cand_area <= area,
                    cand_sum < 256,
                    from_inventory(faces@) ==> from_inventory(candidate@) && from_inventory(rem@),
                    forall|j: int|
                        0 <= j < new_candidates@.len() ==> {
                            let c = #[trigger] new_candidates@[j];
                            &&& c.1@.len() <= faces@.len() - level - 1
                            &&& distinct_blocks(c.0@)
                            &&& c.2 == area_total(c.0@)
                            &&& c.3 == value_total(c.0@)
                            &&& c.2 <= area
                            &&& c.3 < 256
                            &&& from_inventory(faces@) ==> from_inventory(c.0@) && from_inventory(
                                c.1@,
                            )
                        },
                    from_inventory(faces@) ==> forall|k: int|
                        0 <= k < solutions@.len() ==> from_inventory(#[trigger] solutions@[k]@),
                    forall|k1: int, k2: int|
                        0 <= k1 < k2 < solutions@.len() ==> (#[trigger] solutions@[k1])@ != (
                        #[trigger] solutions@[k2])@,
                    forall|k: int|
                        0 <= k < solutions@.len() ==> is_combination(
                            (#[trigger] solutions@[k])@,
                            long as int,
                            short as int,
                            n as int,
                        ),
                    listed(solutions@).union(grown(candidate@, rem@, i as int, l, s, nn)).union(
                        grown_all(candidates@, ci + 1, l, s, nn),
                    ).union(grown_all(new_candidates@, 0, l, s, nn)) == total,
                decreases rem@.len() - i,
            {
                let face = rem[i];
                let ghost nc = candidate@.push(face);
                let ghost here = if uses_block(candidate@, face.block) || area_total(nc) > l * s {
                    Set::empty()
                } else if value_total(nc) == nn && area_total(nc) == l * s && tiles(l, s, nc) {
                    set![nc]
                } else if value_total(nc) < nn {
                    grown(nc, rem@.skip(i + 1), 0, l, s, nn)
                } else {
                    Set::empty()
                };
                let ghost sols_before = solutions@;
                let ghost new_before = new_candidates@;
                proof {
                    assert(grown(candidate@, rem@, i as int, l, s, nn) == here.union(
                        grown(candidate@, rem@, i + 1, l, s, nn),
                    ));
                }
                // faces of a block used already are not selectable
                let mut used = false;
                let mut x: usize = 0;
                while x < candidate.len()
                    invariant
                        x <= candidate@.len(),
                        used == exists|x2: int| 0 <= x2 < x && (#[trigger] candidate@[x2]).block == face.block,
                    decreases candidate@.len() - x,
                {
                    if candidate[x].block == face.block {
                        used = true;
                    }
                    x += 1;
                }
                assert(used == uses_block(candidate@, face.block));
                let long_side = face.long as usize;
                let short_side = face.short as usize;
                assert(long_side * short_side <= 255 * 255) by (nonlinear_arith)
                    requires
                        long_side <= 255,
                        short_side <= 255,
                ;
                let current_area = cand_area + long_side * short_side;
                let sum = cand_sum + face.value as usize;
                proof {
                    lemma_totals_push(candidate@, face);
                }
                // candidates whose area passes the target's are dropped
                if !used && current_area <= area {
                    let mut new_candidate = copy_faces(candidate);
                    new_candidate.push(face);
                    proof {
                        assert(new_candidate@ == nc);
                        assert(distinct_blocks(nc)) by {
                            assert forall|x: int, y: int|
                                0 <= x < y < nc.len() implies (#[trigger] nc[x]).block != (
                                #[trigger] nc[y]).block by {
                                assert(nc[x] == candidate@[x]);
                                if y < candidate@.len() {
                                    assert(nc[y] == candidate@[y]);
                                }
                            }
                        }
                    }
                    if sum == n as usize && area == current_area && form_a_rectangle(
                        long,
                        short,
                        new_candidate.as_slice(),
                    ) {
                        // each combination is listed once
                        if !is_listed(&solutions, &new_candidate) {
                            solutions.push(new_candidate);
                            proof {
                                lemma_listed_push(sols_before, solutions@.last());
                                assert(solutions@ == sols_before.push(solutions@.last()));
                                assert forall|k1: int, k2: int|
                                    0 <= k1 < k2 < solutions@.len() implies (
                                    #[trigger] solutions@[k1])@ != (#[trigger] solutions@[k2])@ by {
                                    assert(solutions@[k1] == sols_before[k1]);
                                    if k2 < sols_before.len() {
                                        assert(solutions@[k2] == sols_before[k2]);
                                    } else {
                                        assert(listed(sols_before).contains(sols_before[k1]@));
                                    }
                                }
                            }
                        } else {
                            proof {
                                assert(listed(solutions@).insert(nc) =~= listed(solutions@));
                            }
                        }
                    } else if sum < n as usize {
                        let mut new_rem: Vec<Face> = Vec::new();
                        let mut j: usize = i + 1;
                        while j < rem.len()
                            invariant
                                i < j <= rem@.len(),
                                new_rem@ =~= rem@.subrange(i + 1, j as int),
                            decreases rem@.len() - j,
                        {
                            new_rem.push(rem[j]);
                            j += 1;
                        }
                        proof {
                            assert(new_rem@ =~= rem@.skip(i + 1));
                        }
                        new_candidates.push((new_candidate, new_rem, current_area, sum));
                        proof {
                            lemma_grown_all_push(new_before, new_candidates@.last(), 0, l, s, nn);
                            assert(new_candidates@ == new_before.push(new_candidates@.last()));
                        }
                    }
                }
                proof {
                    assert(listed(solutions@).union(grown(candidate@, rem@, i + 1, l, s, nn)).union(
                        grown_all(candidates@, ci + 1, l, s, nn),
                    ).union(grown_all(new_candidates@, 0, l, s, nn)) =~= total);
                }
                i += 1;
            }
            proof {
                assert(grown(candidate@, rem@, i as int, l, s, nn) =~= Set::empty());
                assert(listed(solutions@).union(grown_all(candidates@, ci + 1, l, s, nn)).union(
                    grown_all(new_candidates@, 0, l, s, nn),
                ) =~= total);
            }
            ci += 1;
        }
        proof {
            assert(grown_all(candidates@, candidates@.len() as int, l, s, nn) =~= Set::empty());
            assert(listed(solutions@).union(grown_all(new_candidates@, 0, l, s, nn)) =~= total);
            if new_candidates@.len() > 0 {
                assert(new_candidates@[0].1@.len() <= faces@.len() - level - 1);
            }
            level = level + 1;
        }
        candidates = new_candidates;
    }
    proof {
        assert(grown_all(candidates@, 0, l, s, nn) =~= Set::empty());
        assert(listed(solutions@) =~= total);
    }
    solutions
}

/// The face on the other side of the inventory block of `f`.
pub open spec fn opposite_face(f: Face) -> Face {
    inventory_face(f.block as int, dir_index(opposite_dir(f.dir)))
}

/// A face of `f`'s block that stands on two opposite outer faces of the
/// area class `area` must come with a block that spans the puzzle across
/// that class.
pub open spec fn spans(area: int, f: Face) -> bool {
    let dims = BLOCK_DIMS[f.block as int];
    let across = match f.dir {
        Dir::Front | Dir::Back => dims[2],
        Dir::Left | Dir::Right => dims[1],
        Dir::Top | Dir::Bottom => dims[0],
    };
    if area == AREA_L {
        across == DEPTH
    } else if area == AREA_M {
        across == WIDTH
    } else if area == AREA_S {
        across == HEIGHT
    } else {
        true
    }
}

/// Two faces, one on each of two opposite outer faces, can come from one
/// block only as its two opposite faces, the block spanning the puzzle.
pub open spec fn faces_compatible(fa: Face, fb: Face, area: int) -> bool {
    fa.block == fb.block ==> fb.dir == opposite_dir(fa.dir) && spans(area, fa)
}

pub open spec fn pair_ok(a: Seq<Face>, b: Seq<Face>, area: int) -> bool {
    forall|x: int, y: int|
        0 <= x < a.len() && 0 <= y < b.len() ==> #[trigger] faces_compatible(a[x], b[y], area)
}

/// Every face fits the target rectangle in its natural orientation.
pub open spec fn fits_target(a: Seq<Face>, long: int, short: int) -> bool {
    forall|x: int| 0 <= x < a.len() ==> (#[trigger] a[x]).long <= long && a[x].short <= short
}

/// The compatible pairs (cs[i], cs[j]), for j from `j` on, cs[j] holding no
/// face too large for the target.
pub open spec fn pair_row(cs: Seq<Seq<Face>>, i: int, j: int, long: int, short: int) -> Seq<
    (Seq<Face>, Seq<Face>),
>
    decreases cs.len() - j,
{
    if j < 0 || j >= cs.len() {
        seq![]
    } else {
        (if fits_target(cs[j], long, short) && pair_ok(cs[i], cs[j], long * short) {
            seq![(cs[i], cs[j])]
        } else {
            seq![]
        }) + pair_row(cs, i, j + 1, long, short)
    }
}

/// The compatible pairs (cs[i], cs[j]) with j at least i, for i from `i`
/// on; a combination holding a face too large for the target pairs with
/// nothing, on either side.
pub open spec fn pairs_from(cs: Seq<Seq<Face>>, i: int, long: int, short: int) -> Seq<
    (Seq<Face>, Seq<Face>),
>
    decreases cs.len() - i,
{
    if i < 0 || i >= cs.len() {
        seq![]
    } else {
        (if fits_target(cs[i], long, short) {
            pair_row(cs, i, i, long, short)
        } else {
            seq![]
        }) + pairs_from(cs, i + 1, long, short)
    }
}

pub open spec fn combo_views(cs: Seq<Vec<Face>>) -> Seq<Seq<Face>> {
    cs.map_values(|c: Vec<Face>| c@)
}

pub open spec fn pair_views(ps: Seq<(Vec<Face>, Vec<Face>)>) -> Seq<(Seq<Face>, Seq<Face>)> {
    ps.map_values(|p: (Vec<Face>, Vec<Face>)| (p.0@, p.1@))
}

/// All faces of all combinations come from inventory blocks.
pub open spec fn inventory_blocks(cs: Seq<Seq<Face>>) -> bool {
    forall|i: int, x: int|
        0 <= i < cs.len() && 0 <= x < cs[i].len() ==> (#[trigger] cs[i][x]).block < BLOCK_COUNT
}

fn spans_exec(area: usize, f: &Face) -> (r: bool)
    requires
        f.block < BLOCK_COUNT,
    ensures
        r == spans(area as int, *f),
{
    let dims = BLOCK_DIMS[f.block as usize];
    let across = match f.dir {
        Dir::Front | Dir::Back => dims[2],
        Dir::Left | Dir::Right => dims[1],
        Dir::Top | Dir::Bottom => dims[0],
    };
    if area == AREA_L as usize {
        across == DEPTH
    } else if area == AREA_M as usize {
        across == WIDTH
    } else if area == AREA_S as usize {
        across == HEIGHT
    } else {
        true
    }
}

fn pair_ok_exec(a: &Vec<Face>, b: &Vec<Face>, area: usize) -> (r: bool)
    requires
        forall|x: int| 0 <= x < a@.len() ==> (#[trigger] a@[x]).block < BLOCK_COUNT,
    ensures
        r == pair_ok(a@, b@, area as int),
{
    let mut x: usize = 0;
    while x < a.len()
        invariant
            x <= a@.len(),
            forall|x: int| 0 <= x < a@.len() ==> (#[trigger] a@[x]).block < BLOCK_COUNT,
            forall|x2: int, y: int|
                0 <= x2 < x && 0 <= y < b@.len() ==> #[trigger] faces_compatible(
                    a@[x2],
                    b@[y],
                    area as int,
                ),
        decreases a@.len() - x,
    {
        let mut y: usize = 0;
        while y < b.len()
            invariant
                x < a@.len(),
                y <= b@.len(),
                forall|x: int| 0 <= x < a@.len() ==> (#[trigger] a@[x]).block < BLOCK_COUNT,
                forall|x2: int, y2: int|
                    0 <= x2 < x && 0 <= y2 < b@.len() ==> #[trigger] faces_compatible(
                        a@[x2],
                        b@[y2],
                        area as int,
                    ),
                forall|y2: int| 0 <= y2 < y ==> #[trigger] faces_compatible(a@[x as int], b@[y2], area as int),
            decreases b@.len() - y,
        {
            let fa = a[x];
            let fb = b[y];
            if fa.block == fb.block {
                // opposite faces of a common block only, and only when the
                // block spans the puzzle
                if fa.dir.opposite() != fb.dir || !spans_exec(area, &fa) {
                    assert(!faces_compatible(a@[x as int], b@[y as int], area as int));
                    return false;
                }
            }
            y += 1;
        }
        x += 1;
    }
    true
}

fn fits_target_exec(a: &Vec<Face>, long: u8, short: u8) -> (r: bool)
    ensures
        r == fits_target(a@, long as int, short as int),
{
    let mut fits = true;
    let mut x: usize = 0;
    while x < a.len()
        invariant
            x <= a@.len(),
            fits == (forall|x2: int| 0 <= x2 < x ==> (#[trigger] a@[x2]).long <= long
                && a@[x2].short <= short),
        decreases a@.len() - x,
    {
        if a[x].long > long || a[x].short > short {
            fits = false;
        }
        x += 1;
    }
    fits
}

/// Takes the combinations two by two (each with itself and the later ones)
/// as candidates for two opposite outer faces of `long` x `short`, and keeps
/// the compatible pairs.
pub fn match_combos_in_pairs(combos: Vec<Vec<Face>>, long: u8, short: u8) -> (r: Vec<(Vec<Face>, Vec<Face>)>)
    requires
        inventory_blocks(combo_views(combos@)),
    ensures
        pair_views(r@) == pairs_from(combo_views(combos@), 0, long as int, short as int),
        forall|k: int| 0 <= k < r@.len() ==> pair_from_inventory(pair_view(#[trigger] r@[k])),
{
    let ghost cs = combo_views(combos@);
    let ghost l = long as int;
    let ghost s = short as int;
    let ghost total = pairs_from(cs, 0, l, s);
    let long_cells = long as usize;
    let short_cells = short as usize;
    assert(long_cells * short_cells <= 255 * 255) by (nonlinear_arith)
        requires
            long_cells <= 255,
            short_cells <= 255,
    ;
    let area = long_cells * short_cells;
    let mut pairs: Vec<(Vec<Face>, Vec<Face>)> = Vec::new();
    let mut i: usize = 0;
    while i < combos.len()
        invariant
            cs == combo_views(combos@),
            inventory_blocks(cs),
            area == l * s,
            l == long,
            s == short,
            i <= combos@.len(),
            pair_views(pairs@) + pairs_from(cs, i as int, l, s) == total,
            forall|k: int| 0 <= k < pairs@.len() ==> pair_from_inventory(pair_view(#[trigger] pairs@[k])),
        decreases combos@.len() - i,
    {
        let sol_a = &combos[i];
        assert(sol_a@ == cs[i as int]);
        // a combination holding a face too large for the target pairs with
        // nothing
        let fits = fits_target_exec(sol_a, long, short);
        let ghost before = pair_views(pairs@);
        if fits {
            let mut j: usize = i;
            while j < combos.len()
                invariant
                    cs == combo_views(combos@),
                    inventory_blocks(cs),
                    area == l * s,
                    l == long,
                    s == short,
                    i <= j <= combos@.len(),
                    *sol_a == combos@[i as int],
                    fits_target(cs[i as int], l, s),
                    forall|k: int| 0 <= k < pairs@.len() ==> pair_from_inventory(pair_view(#[trigger] pairs@[k])),
                    pair_views(pairs@) + pair_row(cs, i as int, j as int, l, s) == before + pair_row(
                        cs,
                        i as int,
                        i as int,
                        l,
                        s,
                    ),
                decreases combos@.len() - j,
            {
                let ghost pre = pair_views(pairs@);
                proof {
                    assert forall|x: int| 0 <= x < sol_a@.len() implies (#[trigger] sol_a@[x]).block
                        < BLOCK_COUNT by {
                        assert(cs[i as int][x] == sol_a@[x]);
                    }
                }
                if fits_target_exec(&combos[j], long, short) && pair_ok_exec(sol_a, &combos[j], area) {
                    let a_copy = copy_faces(sol_a);
                    let b_copy = copy_faces(&combos[j]);
                    let ghost pre_pairs = pairs@;
                    pairs.push((a_copy, b_copy));
                    proof {
                        assert(from_inventory(cs[j as int]));
                        assert forall|k: int| 0 <= k < pairs@.len() implies pair_from_inventory(pair_view(#[trigger] pairs@[k])) by {
                            if k < pre_pairs.len() {
                                assert(pairs@[k] == pre_pairs[k]);
                            }
                        }
                        assert(pair_views(pairs@) =~= pre.push((cs[i as int], cs[j as int])));
                        assert(pair_row(cs, i as int, j as int, l, s) == seq![(cs[i as int], cs[j as int])] + pair_row(cs, i as int, j + 1, l, s));
                        assert(pre.push((cs[i as int], cs[j as int])) + pair_row(cs, i as int, j + 1, l, s) =~= pre + (seq![(cs[i as int], cs[j as int])] + pair_row(cs, i as int, j + 1, l, s)));
                    }
                } else {
                    proof {
                        assert(pair_row(cs, i as int, j as int, l, s) =~= pair_row(cs, i as int, j + 1, l, s));
                    }
                }
                j += 1;
            }
            proof {
                assert(pair_row(cs, i as int, combos@.len() as int, l, s) =~= Seq::<(Seq<Face>, Seq<Face>)>::empty());
                assert(pair_views(pairs@) =~= before + pair_row(cs, i as int, i as int, l, s));
                assert(pairs_from(cs, i as int, l, s) == pair_row(cs, i as int, i as int, l, s) + pairs_from(cs, i + 1, l, s));
                assert(before + pairs_from(cs, i as int, l, s) =~= pair_views(pairs@) + pairs_from(cs, i + 1, l, s));
            }
        } else {
            proof {
                assert(!fits_target(cs[i as int], l, s));
                assert(pairs_from(cs, i as int, l, s) =~= pairs_from(cs, i + 1, l, s));
            }
        }
        i += 1;
    }
    proof {
        assert(pairs_from(cs, combos@.len() as int, l, s) =~= Seq::<(Seq<Face>, Seq<Face>)>::empty());
        assert(pair_views(pairs@) =~= total);
    }
    pairs
}

/// Three faces of one block meeting at a corner: none is the face on the
/// other side of another.
pub open spec fn is_corner(fs: Face, fm: Face, fl: Face) -> bool {
    &&& fs.block == fm.block
    &&& opposite_face(fs) != fm
    &&& fl.block == fs.block
    &&& opposite_face(fs) != fl
    &&& opposite_face(fm) != fl
}

pub open spec fn corner_at(s: Seq<Face>, m: Seq<Face>, l: Seq<Face>, i: int, j: int, k: int) -> bool {
    &&& 0 <= i < s.len()
    &&& 0 <= j < m.len()
    &&& 0 <= k < l.len()
    &&& is_corner(s[i], m[j], l[k])
}

/// (i, j, k) is the one corner of the three lists.
pub open spec fn unique_corner(s: Seq<Face>, m: Seq<Face>, l: Seq<Face>, i: int, j: int, k: int) -> bool {
    &&& corner_at(s, m, l, i, j, k)
    &&& forall|i2: int, j2: int, k2: int|
        #[trigger] corner_at(s, m, l, i2, j2, k2) ==> i2 == i && j2 == j && k2 == k
}

/// The corner of the three lists, when there is exactly one.
pub open spec fn corner_of(s: Seq<Face>, m: Seq<Face>, l: Seq<Face>) -> Option<(Face, Face, Face)> {
    if exists|i: int, j: int, k: int| unique_corner(s, m, l, i, j, k) {
        let (i, j, k) = choose|i: int, j: int, k: int| unique_corner(s, m, l, i, j, k);
        Some((s[i], m[j], l[k]))
    } else {
        None
    }
}

pub open spec fn from_inventory(faces: Seq<Face>) -> bool {
    forall|x: int| 0 <= x < faces.len() ==> (#[trigger] faces[x]).block < BLOCK_COUNT
}

/// Triple (a, b, c) comes before (i, j, k) in the order of the search.
pub open spec fn before(a: int, b: int, c: int, i: int, j: int, k: int) -> bool {
    a < i || (a == i && b < j) || (a == i && b == j && c < k)
}

/// The corner made of one face of each list, when there is exactly one.
pub fn find_corner(faces_s: &Vec<Face>, faces_m: &Vec<Face>, faces_l: &Vec<Face>) -> (r: Option<(Face, Face, Face)>)
    requires
        from_inventory(faces_s@),
        from_inventory(faces_m@),
    ensures
        r == corner_of(faces_s@, faces_m@, faces_l@),
{
    let ghost s = faces_s@;
    let ghost m = faces_m@;
    let ghost l = faces_l@;
    // the first corner met, and whether another one was met
    let mut first: Option<(usize, usize, usize)> = None;
    let mut more = false;
    let mut i: usize = 0;
    while i < faces_s.len()
        invariant
            s == faces_s@,
            m == faces_m@,
            l == faces_l@,
            from_inventory(s),
            from_inventory(m),
            i <= s.len(),
            first is None ==> forall|a: int, b: int, c: int| #[trigger] corner_at(s, m, l, a, b, c) ==> !before(a, b, c, i as int, 0, 0),
            first matches Some(t) ==> corner_at(s, m, l, t.0 as int, t.1 as int, t.2 as int) && before(t.0 as int, t.1 as int, t.2 as int, i as int, 0, 0),
            first matches Some(t) ==> !more ==> forall|a: int, b: int, c: int| #[trigger] corner_at(s, m, l, a, b, c) && before(a, b, c, i as int, 0, 0) ==> a == t.0 && b == t.1 && c == t.2,
            first matches Some(t) ==> more ==> exists|a: int, b: int, c: int| #[trigger] corner_at(s, m, l, a, b, c) && !(a == t.0 && b == t.1 && c == t.2),
            more ==> first is Some,
        decreases s.len() - i,
    {
        let fs = faces_s[i];
        let os = fs.opposite();
        let mut j: usize = 0;
        while j < faces_m.len()
            invariant
                s == faces_s@,
                m == faces_m@,
                l == faces_l@,
                from_inventory(s),
                from_inventory(m),
                i < s.len(),
                j <= m.len(),
                fs == s[i as int],
                os == opposite_face(fs),
                first is None ==> forall|a: int, b: int, c: int| #[trigger] corner_at(s, m, l, a, b, c) ==> !before(a, b, c, i as int, j as int, 0),
                first matches Some(t) ==> corner_at(s, m, l, t.0 as int, t.1 as int, t.2 as int) && before(t.0 as int, t.1 as int, t.2 as int, i as int, j as int, 0),
                first matches Some(t) ==> !more ==> forall|a: int, b: int, c: int| #[trigger] corner_at(s, m, l, a, b, c) && before(a, b, c, i as int, j as int, 0) ==> a == t.0 && b == t.1 && c == t.2,
                first matches Some(t) ==> more ==> exists|a: int, b: int, c: int| #[trigger] corner_at(s, m, l, a, b, c) && !(a == t.0 && b == t.1 && c == t.2),
                more ==> first is Some,
            decreases m.len() - j,
        {
            let fm = faces_m[j];
            if fs.block == fm.block && os != fm {
                let om = fm.opposite();
                let mut k: usize = 0;
                while k < faces_l.len()
                    invariant
                        s == faces_s@,
                        m == faces_m@,
                        l == faces_l@,
                        i < s.len(),
                        j < m.len(),
                        k <= l.len(),
                        fs == s[i as int],
                        fm == m[j as int],
                        os == opposite_face(fs),
                        om == opposite_face(fm),
                        fs.block == fm.block && os != fm,
                        first is None ==> forall|a: int, b: int, c: int| #[trigger] corner_at(s, m, l, a, b, c) ==> !before(a, b, c, i as int, j as int, k as int),
                        first matches Some(t) ==> corner_at(s, m, l, t.0 as int, t.1 as int, t.2 as int) && before(t.0 as int, t.1 as int, t.2 as int, i as int, j as int, k as int),
                        first matches Some(t) ==> !more ==> forall|a: int, b: int, c: int| #[trigger] corner_at(s, m, l, a, b, c) && before(a, b, c, i as int, j as int, k as int) ==> a == t.0 && b == t.1 && c == t.2,
                        first matches Some(t) ==> more ==> exists|a: int, b: int, c: int| #[trigger] corner_at(s, m, l, a, b, c) && !(a == t.0 && b == t.1 && c == t.2),
                        more ==> first is Some,
                    decreases l.len() - k,
                {
                    let fl = faces_l[k];
                    if fs.block == fl.block && os != fl && om != fl {
                        assert(corner_at(s, m, l, i as int, j as int, k as int));
                        if first.is_none() {
                            first = Some((i, j, k));
                        } else {
                            more = true;
                        }
                    }
                    k += 1;
                }
            } else {
                assert forall|c: int| !corner_at(s, m, l, i as int, j as int, c) by {}
            }
            j += 1;
        }
        i += 1;
    }
    proof {
        assert forall|a: int, b: int, c: int| #[trigger] corner_at(s, m, l, a, b, c) implies before(a, b, c, s.len() as int, 0, 0) by {}
    }
    match first {
        Some(t) => {
            if more {
                proof {
                    assert(!exists|a: int, b: int, c: int| unique_corner(s, m, l, a, b, c)) by {
                        if exists|a: int, b: int, c: int| unique_corner(s, m, l, a, b, c) {
                            let (a, b, c) = choose|a: int, b: int, c: int| unique_corner(s, m, l, a, b, c);
                            let (a2, b2, c2) = choose|a2: int, b2: int, c2: int| corner_at(s, m, l, a2, b2, c2) && !(a2 == t.0 && b2 == t.1 && c2 == t.2);
                            assert(corner_at(s, m, l, t.0 as int, t.1 as int, t.2 as int));
                        }
                    }
                }
                None
            } else {
                proof {
                    assert(unique_corner(s, m, l, t.0 as int, t.1 as int, t.2 as int));
                    let (a, b, c) = choose|a: int, b: int, c: int| unique_corner(s, m, l, a, b, c);
                    assert(corner_at(s, m, l, a, b, c));
                }
                Some((faces_s[t.0], faces_m[t.1], faces_l[t.2]))
            }
        },
        None => None,
    }
}

/// The labeling slot of a face: six per inventory block, one per side.
pub open spec fn face_key(f: Face) -> int {
    f.block * 6 + dir_index(f.dir)
}

/// The labeling slot of the face on the other side of `f`'s block.
pub open spec fn opposite_key(f: Face) -> int {
    f.block * 6 + dir_index(opposite_dir(f.dir))
}

/// Number of labeling slots: six sides of each of the nine blocks.
pub const LABEL_SLOTS: usize = 54;

/// What a group of faces demands: each face takes the group's direction,
/// and the face on the other side of its block the opposite direction.
pub open spec fn group_demands(faces: Seq<Face>, d: Dir) -> Seq<(int, Dir)>
    decreases faces.len(),
{
    if faces.len() == 0 {
        seq![]
    } else {
        group_demands(faces.drop_last(), d) + seq![
            (face_key(faces.last()), d),
            (opposite_key(faces.last()), opposite_dir(d)),
        ]
    }
}

pub open spec fn all_demands(groups: Seq<(Seq<Face>, Dir)>) -> Seq<(int, Dir)>
    decreases groups.len(),
{
    if groups.len() == 0 {
        seq![]
    } else {
        all_demands(groups.drop_last()) + group_demands(groups.last().0, groups.last().1)
    }
}

/// The labeling `m` (a direction, or none, per slot) after the demands, in
/// order: none as soon as one demand contradicts the labeling so far.
pub open spec fn apply_demands(m: Seq<Option<Dir>>, dem: Seq<(int, Dir)>) -> Option<Seq<Option<Dir>>>
    decreases dem.len(),
{
    if dem.len() == 0 {
        Some(m)
    } else {
        match apply_demands(m, dem.drop_last()) {
            None => None,
            Some(m2) => {
                let (k, d) = dem.last();
                if m2[k] is Some && m2[k] != Some(d) {
                    None
                } else {
                    Some(m2.update(k, Some(d)))
                }
            },
        }
    }
}

proof fn lemma_demands_fail_stay(m: Seq<Option<Dir>>, x: Seq<(int, Dir)>, y: Seq<(int, Dir)>)
    requires
        apply_demands(m, x) is None,
    ensures
        apply_demands(m, x + y) is None,
    decreases y.len(),
{
    if y.len() == 0 {
        assert(x + y =~= x);
    } else {
        lemma_demands_fail_stay(m, x, y.drop_last());
        assert((x + y).drop_last() =~= x + y.drop_last());
    }
}

pub open spec fn group_views(groups: Seq<(Vec<Face>, Dir)>) -> Seq<(Seq<Face>, Dir)> {
    groups.map_values(|g: (Vec<Face>, Dir)| (g.0@, g.1))
}

fn face_key_exec(f: &Face) -> (r: usize)
    requires
        f.block < BLOCK_COUNT,
    ensures
        r == face_key(*f),
        r < LABEL_SLOTS,
{
    f.block as usize * 6 + f.dir.index()
}

fn opposite_key_exec(f: &Face) -> (r: usize)
    requires
        f.block < BLOCK_COUNT,
    ensures
        r == opposite_key(*f),
        r < LABEL_SLOTS,
{
    f.block as usize * 6 + f.dir.opposite().index()
}

/// Propagates the group directions through the labeling: every face of a
/// group takes the group's direction, and the face on the other side of its
/// block the opposite one. None on the first contradiction.
pub fn propagate(constraints: Vec<Option<Dir>>, faces_and_dirs: &Vec<(Vec<Face>, Dir)>) -> (r:
    Option<Vec<Option<Dir>>>)
    requires
        constraints@.len() == LABEL_SLOTS,
        forall|g: int| 0 <= g < faces_and_dirs@.len() ==> from_inventory((#[trigger] faces_and_dirs@[g]).0@),
    ensures
        match r {
            Some(m) => apply_demands(constraints@, all_demands(group_views(faces_and_dirs@))) == Some(m@),
            None => apply_demands(constraints@, all_demands(group_views(faces_and_dirs@))) is None,
        },
        r matches Some(m) ==> m@.len() == LABEL_SLOTS,
{
    let ghost groups = group_views(faces_and_dirs@);
    // the demands, in order
    let mut demands: Vec<(usize, Dir)> = Vec::new();
    let ghost dem = Seq::<(int, Dir)>::empty();
    let mut g: usize = 0;
    while g < faces_and_dirs.len()
        invariant
            groups == group_views(faces_and_dirs@),
            g <= faces_and_dirs@.len(),
            forall|g: int| 0 <= g < faces_and_dirs@.len() ==> from_inventory((#[trigger] faces_and_dirs@[g]).0@),
            demands@.map_values(|p: (usize, Dir)| (p.0 as int, p.1)) == all_demands(groups.take(g as int)),
            forall|x: int| 0 <= x < demands@.len() ==> (#[trigger] demands@[x]).0 < LABEL_SLOTS,
        decreases faces_and_dirs@.len() - g,
    {
        let faces = &faces_and_dirs[g].0;
        let d = faces_and_dirs[g].1;
        let ghost start = demands@.map_values(|p: (usize, Dir)| (p.0 as int, p.1));
        assert(from_inventory(faces@));
        let mut x: usize = 0;
        while x < faces.len()
            invariant
                x <= faces@.len(),
                from_inventory(faces@),
                demands@.map_values(|p: (usize, Dir)| (p.0 as int, p.1)) == start + group_demands(faces@.take(x as int), d),
                forall|x: int| 0 <= x < demands@.len() ==> (#[trigger] demands@[x]).0 < LABEL_SLOTS,
            decreases faces@.len() - x,
        {
            let f = faces[x];
            let ghost pre = demands@;
            demands.push((face_key_exec(&f), d));
            demands.push((opposite_key_exec(&f), d.opposite()));
            proof {
                assert(faces@.take(x + 1).drop_last() =~= faces@.take(x as int));
                assert(faces@.take(x + 1).last() == f);
                assert(group_demands(faces@.take(x + 1), d) == group_demands(faces@.take(x as int), d)
                    + seq![(face_key(f), d), (opposite_key(f), opposite_dir(d))]);
                assert(demands@ == pre.push((face_key(f) as usize, d)).push((opposite_key(f) as usize, opposite_dir(d))));
                assert(demands@.map_values(|p: (usize, Dir)| (p.0 as int, p.1)) =~= pre.map_values(|p: (usize, Dir)| (p.0 as int, p.1)) + seq![(face_key(f), d), (opposite_key(f), opposite_dir(d))]);
            }
            x += 1;
        }
        proof {
            assert(faces@.take(x as int) =~= faces@);
            assert(groups.take(g + 1).drop_last() =~= groups.take(g as int));
            assert(groups.take(g + 1).last() == (faces@, d));
        }
        g += 1;
    }
    proof {
        assert(groups.take(g as int) =~= groups);
    }
    let ghost all = demands@.map_values(|p: (usize, Dir)| (p.0 as int, p.1));
    let mut m = constraints;
    let ghost init = m@;
    let mut i: usize = 0;
    while i < demands.len()
        invariant
            i <= demands@.len(),
            all == demands@.map_values(|p: (usize, Dir)| (p.0 as int, p.1)),
            forall|x: int| 0 <= x < demands@.len() ==> (#[trigger] demands@[x]).0 < LABEL_SLOTS,
            m@.len() == LABEL_SLOTS,
            apply_demands(init, all.take(i as int)) == Some(m@),
            all == all_demands(groups),
            groups == group_views(faces_and_dirs@),
            init == constraints@,
        decreases demands@.len() - i,
    {
        let (k, d) = demands[i];
        proof {
            assert(all.take(i + 1).drop_last() =~= all.take(i as int));
            assert(all.take(i + 1).last() == (k as int, d));
        }
        match m[k] {
            Some(old_dir) => {
                if old_dir != d {
                    proof {
                        assert(apply_demands(init, all.take(i + 1)) is None);
                        lemma_demands_fail_stay(init, all.take(i + 1), all.skip(i + 1));
                        assert(all.take(i + 1) + all.skip(i + 1) =~= all);
                    }
                    return None;
                }
            },
            None => {},
        }
        m.set(k, Some(d));
        i += 1;
    }
    proof {
        assert(all.take(i as int) =~= all);
    }
    Some(m)
}

/// Under the labeling `m`, the corner keeps its spin: its faces are all
/// labeled, along three different axes, and the labels turn the same way as
/// the faces' own directions.
pub open spec fn corner_possible(corner: (Face, Face, Face), m: Seq<Option<Dir>>) -> bool {
    let (f0, f1, f2) = corner;
    match (m[face_key(f0)], m[face_key(f1)], m[face_key(f2)]) {
        (Some(r0), Some(r1), Some(r2)) => {
            &&& !parallel(f0.dir, f1.dir)
            &&& !parallel(r0, r1)
            &&& (prod_dir(f0.dir, f1.dir) == f2.dir) == (prod_dir(r0, r1) == r2)
        },
        _ => false,
    }
}

/// Whether the corner keeps its spin under the labeling (a corner whose
/// faces are not all labeled, or not along three axes, does not).
pub fn is_corner_possible(corner: &(Face, Face, Face), constraints: &Vec<Option<Dir>>) -> (r: bool)
    requires
        constraints@.len() == LABEL_SLOTS,
        corner.0.block < BLOCK_COUNT,
        corner.1.block < BLOCK_COUNT,
        corner.2.block < BLOCK_COUNT,
    ensures
        r == corner_possible(*corner, constraints@),
{
    let face0 = corner.0;
    let face1 = corner.1;
    let face2 = corner.2;
    let dir0 = face0.dir;
    let dir1 = face1.dir;
    let dir2 = face2.dir;
    match (
        constraints[face_key_exec(&face0)],
        constraints[face_key_exec(&face1)],
        constraints[face_key_exec(&face2)],
    ) {
        (Some(rot_dir0), Some(rot_dir1), Some(rot_dir2)) => {
            if dir0 == dir1 || dir0 == dir1.opposite() || rot_dir0 == rot_dir1 || rot_dir0
                == rot_dir1.opposite() {
                return false;
            }
            let positive = dir0.prod(dir1) == dir2;
            let c_positive = rot_dir0.prod(rot_dir1) == rot_dir2;
            positive == c_positive
        },
        _ => false,
    }
}

/// The six groups of a choice of pairs: the small pair's faces on Top and
/// Bottom, the medium pair's on Left and Right, the large pair's on `last`
/// and its opposite.
pub open spec fn six_groups(
    ps: (Seq<Face>, Seq<Face>),
    pm: (Seq<Face>, Seq<Face>),
    pl: (Seq<Face>, Seq<Face>),
    last: Dir,
) -> Seq<(Seq<Face>, Dir)> {
    seq![
        (ps.0, Dir::Top),
        (ps.1, Dir::Bottom),
        (pm.0, Dir::Left),
        (pm.1, Dir::Right),
        (pl.0, last),
        (pl.1, opposite_dir(last)),
    ]
}

pub open spec fn pair_view(p: (Vec<Face>, Vec<Face>)) -> (Seq<Face>, Seq<Face>) {
    (p.0@, p.1@)
}

pub open spec fn pair_from_inventory(p: (Seq<Face>, Seq<Face>)) -> bool {
    from_inventory(p.0) && from_inventory(p.1)
}

/// Propagates the six group directions through the labeling.
pub fn can_propagate(
    pairs_s: &(Vec<Face>, Vec<Face>),
    pairs_m: &(Vec<Face>, Vec<Face>),
    pairs_l: &(Vec<Face>, Vec<Face>),
    constraints: Vec<Option<Dir>>,
    last_constraint: Dir,
) -> (r: Option<Vec<Option<Dir>>>)
    requires
        constraints@.len() == LABEL_SLOTS,
        pair_from_inventory(pair_view(*pairs_s)),
        pair_from_inventory(pair_view(*pairs_m)),
        pair_from_inventory(pair_view(*pairs_l)),
    ensures
        match r {
            Some(m) => apply_demands(
                constraints@,
                all_demands(
                    six_groups(
                        pair_view(*pairs_s),
                        pair_view(*pairs_m),
                        pair_view(*pairs_l),
                        last_constraint,
                    ),
                ),
            ) == Some(m@),
            None => apply_demands(
                constraints@,
                all_demands(
                    six_groups(
                        pair_view(*pairs_s),
                        pair_view(*pairs_m),
                        pair_view(*pairs_l),
                        last_constraint,
                    ),
                ),
            ) is None,
        },
        r matches Some(m) ==> m@.len() == LABEL_SLOTS,
{
    let groups = vec![
        (copy_faces(&pairs_s.0), Dir::Top),
        (copy_faces(&pairs_s.1), Dir::Bottom),
        (copy_faces(&pairs_m.0), Dir::Left),
        (copy_faces(&pairs_m.1), Dir::Right),
        (copy_faces(&pairs_l.0), last_constraint),
        (copy_faces(&pairs_l.1), last_constraint.opposite()),
    ];
    assert(group_views(groups@) =~= six_groups(
        pair_view(*pairs_s),
        pair_view(*pairs_m),
        pair_view(*pairs_l),
        last_constraint,
    ));
    assert forall|g: int| 0 <= g < groups@.len() implies from_inventory(
        (#[trigger] groups@[g]).0@,
    ) by {
        assert(g == 0 || g == 1 || g == 2 || g == 3 || g == 4 || g == 5);
    }
    propagate(constraints, &groups)
}

/// The eight corners of a choice of pairs, one per choice of side in each
/// pair.
pub open spec fn combo_corners(
    ps: (Seq<Face>, Seq<Face>),
    pm: (Seq<Face>, Seq<Face>),
    pl: (Seq<Face>, Seq<Face>),
) -> Seq<Option<(Face, Face, Face)>> {
    seq![
        corner_of(ps.0, pm.0, pl.0),
        corner_of(ps.0, pm.0, pl.1),
        corner_of(ps.0, pm.1, pl.0),
        corner_of(ps.0, pm.1, pl.1),
        corner_of(ps.1, pm.0, pl.0),
        corner_of(ps.1, pm.0, pl.1),
        corner_of(ps.1, pm.1, pl.0),
        corner_of(ps.1, pm.1, pl.1),
    ]
}

/// The labeling seeded by the first corner: its first face on Top, its
/// second on Left.
pub open spec fn seed(c0: (Face, Face, Face)) -> Seq<Option<Dir>> {
    Seq::new(LABEL_SLOTS as nat, |k: int| None::<Dir>).update(face_key(c0.0), Some(Dir::Top)).update(
        face_key(c0.1),
        Some(Dir::Left),
    )
}

/// A choice of one pair per area class admits a consistent labeling: each
/// of its eight side choices has exactly one corner; seeding from the first
/// corner (its third face going Front or Back by the corner's spin) and
/// propagating the group directions meets no contradiction; and every
/// corner keeps its spin under the labeling.
pub open spec fn six_combo_ok(
    ps: (Seq<Face>, Seq<Face>),
    pm: (Seq<Face>, Seq<Face>),
    pl: (Seq<Face>, Seq<Face>),
) -> bool {
    let cs = combo_corners(ps, pm, pl);
    &&& forall|q: int| 0 <= q < 8 ==> (#[trigger] cs[q]) is Some
    &&& {
        let c0 = cs[0]->Some_0;
        let p = prod_dir(c0.0.dir, c0.1.dir);
        &&& !parallel(c0.0.dir, c0.1.dir)
        &&& (p == c0.2.dir || p == opposite_dir(c0.2.dir))
        &&& {
            let last = if p == c0.2.dir {
                Dir::Front
            } else {
                Dir::Back
            };
            match apply_demands(seed(c0), all_demands(six_groups(ps, pm, pl, last))) {
                Some(m) => forall|q: int| 0 <= q < 8 ==> corner_possible(#[trigger] cs[q]->Some_0, m),
                None => false,
            }
        }
    }
}

/// Entry 4a + 2b + c of the corners takes side a of the small pair, side b
/// of the medium one and side c of the large one.
proof fn lemma_combo_corner_index(
    ps: (Seq<Face>, Seq<Face>),
    pm: (Seq<Face>, Seq<Face>),
    pl: (Seq<Face>, Seq<Face>),
    a: int,
    b: int,
    c: int,
)
    requires
        0 <= a < 2,
        0 <= b < 2,
        0 <= c < 2,
    ensures
        combo_corners(ps, pm, pl)[4 * a + 2 * b + c] == corner_of(
            if a == 0 { ps.0 } else { ps.1 },
            if b == 0 { pm.0 } else { pm.1 },
            if c == 0 { pl.0 } else { pl.1 },
        ),
{
    let cs = combo_corners(ps, pm, pl);
    if a == 0 {
        if b == 0 {
            if c == 0 { assert(cs[0] == corner_of(ps.0, pm.0, pl.0)); } else { assert(cs[1] == corner_of(ps.0, pm.0, pl.1)); }
        } else {
            if c == 0 { assert(cs[2] == corner_of(ps.0, pm.1, pl.0)); } else { assert(cs[3] == corner_of(ps.0, pm.1, pl.1)); }
        }
    } else {
        if b == 0 {
            if c == 0 { assert(cs[4] == corner_of(ps.1, pm.0, pl.0)); } else { assert(cs[5] == corner_of(ps.1, pm.0, pl.1)); }
        } else {
            if c == 0 { assert(cs[6] == corner_of(ps.1, pm.1, pl.0)); } else { assert(cs[7] == corner_of(ps.1, pm.1, pl.1)); }
        }
    }
}

/// The faces of a corner come from the lists.
proof fn lemma_corner_faces(s: Seq<Face>, m: Seq<Face>, l: Seq<Face>)
    requires
        from_inventory(s),
        from_inventory(m),
        from_inventory(l),
    ensures
        corner_of(s, m, l) matches Some(c) ==> c.0.block < BLOCK_COUNT && c.1.block < BLOCK_COUNT
            && c.2.block < BLOCK_COUNT,
{
    if exists|i: int, j: int, k: int| unique_corner(s, m, l, i, j, k) {
        let (i, j, k) = choose|i: int, j: int, k: int| unique_corner(s, m, l, i, j, k);
        assert(s[i].block < BLOCK_COUNT && m[j].block < BLOCK_COUNT && l[k].block < BLOCK_COUNT);
    }
}

proof fn lemma_combo_corner_faces(
    ps: (Seq<Face>, Seq<Face>),
    pm: (Seq<Face>, Seq<Face>),
    pl: (Seq<Face>, Seq<Face>),
    q: int,
)
    requires
        0 <= q < 8,
        pair_from_inventory(ps),
        pair_from_inventory(pm),
        pair_from_inventory(pl),
    ensures
        combo_corners(ps, pm, pl)[q] matches Some(c) ==> c.0.block < BLOCK_COUNT && c.1.block
            < BLOCK_COUNT && c.2.block < BLOCK_COUNT,
{
    let a = q / 4;
    let b = (q % 4) / 2;
    let c = q % 2;
    assert(q == 4 * a + 2 * b + c);
    lemma_combo_corner_index(ps, pm, pl, a, b, c);
    lemma_corner_faces(
        if a == 0 { ps.0 } else { ps.1 },
        if b == 0 { pm.0 } else { pm.1 },
        if c == 0 { pl.0 } else { pl.1 },
    );
}

/// Whether each face of the chosen pairs can be given a side of the puzzle
/// consistently with the other faces of its block.
pub fn compatible_six_combo(
    pairs_s: &(Vec<Face>, Vec<Face>),
    pairs_m: &(Vec<Face>, Vec<Face>),
    pairs_l: &(Vec<Face>, Vec<Face>),
) -> (r: bool)
    requires
        pair_from_inventory(pair_view(*pairs_s)),
        pair_from_inventory(pair_view(*pairs_m)),
        pair_from_inventory(pair_view(*pairs_l)),
    ensures
        r == six_combo_ok(pair_view(*pairs_s), pair_view(*pairs_m), pair_view(*pairs_l)),
{
    let ghost ps = pair_view(*pairs_s);
    let ghost pm = pair_view(*pairs_m);
    let ghost pl = pair_view(*pairs_l);
    let ghost cs = combo_corners(ps, pm, pl);
    let mut corners: Vec<(Face, Face, Face)> = Vec::new();
    let mut a: usize = 0;
    while a < 2
        invariant
            a <= 2,
            ps == pair_view(*pairs_s),
            pm == pair_view(*pairs_m),
            pl == pair_view(*pairs_l),
            cs == combo_corners(ps, pm, pl),
            pair_from_inventory(ps),
            pair_from_inventory(pm),
            pair_from_inventory(pl),
            corners@.len() == 4 * a,
            forall|q: int| 0 <= q < corners@.len() ==> cs[q] == Some(#[trigger] corners@[q]),
        decreases 2 - a,
    {
        let faces_s = if a == 0 {
            &pairs_s.0
        } else {
            &pairs_s.1
        };
        let mut b: usize = 0;
        while b < 2
            invariant
                a < 2,
                b <= 2,
                ps == pair_view(*pairs_s),
                pm == pair_view(*pairs_m),
                pl == pair_view(*pairs_l),
                cs == combo_corners(ps, pm, pl),
                pair_from_inventory(ps),
                pair_from_inventory(pm),
                pair_from_inventory(pl),
                faces_s@ == if a == 0 { ps.0 } else { ps.1 },
                corners@.len() == 4 * a + 2 * b,
                forall|q: int| 0 <= q < corners@.len() ==> cs[q] == Some(#[trigger] corners@[q]),
            decreases 2 - b,
        {
            let faces_m = if b == 0 {
                &pairs_m.0
            } else {
                &pairs_m.1
            };
            let mut c: usize = 0;
            while c < 2
                invariant
                    a < 2,
                    b < 2,
                    c <= 2,
                    ps == pair_view(*pairs_s),
                    pm == pair_view(*pairs_m),
                    pl == pair_view(*pairs_l),
                    cs == combo_corners(ps, pm, pl),
                    pair_from_inventory(ps),
                    pair_from_inventory(pm),
                    pair_from_inventory(pl),
                    faces_s@ == if a == 0 { ps.0 } else { ps.1 },
                    faces_m@ == if b == 0 { pm.0 } else { pm.1 },
                    corners@.len() == 4 * a + 2 * b + c,
                    forall|q: int| 0 <= q < corners@.len() ==> cs[q] == Some(#[trigger] corners@[q]),
                decreases 2 - c,
            {
                let faces_l = if c == 0 {
                    &pairs_l.0
                } else {
                    &pairs_l.1
                };
                let q = 4 * a + 2 * b + c;
                proof {
                    lemma_combo_corner_index(ps, pm, pl, a as int, b as int, c as int);
                }
                match find_corner(faces_s, faces_m, faces_l) {
                    Some(corner) => {
                        corners.push(corner);
                    },
                    None => {
                        return false;
                    },
                }
                c += 1;
            }
            b += 1;
        }
        a += 1;
    }
    assert forall|q: int| 0 <= q < 8 implies (#[trigger] cs[q]) is Some by {
        assert(cs[q] == Some(corners@[q]));
    }
    let corner0 = corners[0];
    let ghost c0 = cs[0]->Some_0;
    assert(corner0 == c0);
    proof {
        lemma_combo_corner_faces(ps, pm, pl, 0);
    }
    let mut constraints: Vec<Option<Dir>> = Vec::new();
    let mut k: usize = 0;
    while k < LABEL_SLOTS
        invariant
            k <= LABEL_SLOTS,
            constraints@ =~= Seq::new(k as nat, |k2: int| None::<Dir>),
        decreases LABEL_SLOTS - k,
    {
        constraints.push(None);
        k += 1;
    }
    // the first face of the first corner goes on Top, the second on Left
    // (either choice would do)
    constraints.set(face_key_exec(&corner0.0), Some(Dir::Top));
    constraints.set(face_key_exec(&corner0.1), Some(Dir::Left));
    assert(constraints@ =~= seed(c0));
    // the third face goes Front or Back, by the spin of the corner
    let d0 = corner0.0.dir;
    let d1 = corner0.1.dir;
    let d2 = corner0.2.dir;
    if d0 == d1 || d0 == d1.opposite() {
        return false;
    }
    let spin = d0.prod(d1);
    let last_constraint = if spin == d2 {
        Dir::Front
    } else if spin == d2.opposite() {
        Dir::Back
    } else {
        return false;
    };
    match can_propagate(pairs_s, pairs_m, pairs_l, constraints, last_constraint) {
        Some(m) => {
            proof {
                assert(six_combo_ok(ps, pm, pl) == (forall|q: int|
                    0 <= q < 8 ==> corner_possible(#[trigger] cs[q]->Some_0, m@)));
            }
            let mut q: usize = 0;
            while q < 8
                invariant
                    six_combo_ok(ps, pm, pl) == (forall|q: int|
                        0 <= q < 8 ==> corner_possible(#[trigger] cs[q]->Some_0, m@)),
                    q <= 8,
                    corners@.len() == 8,
                    m@.len() == LABEL_SLOTS,
                    forall|q2: int| 0 <= q2 < 8 ==> cs[q2] == Some(#[trigger] corners@[q2]),
                    ps == pair_view(*pairs_s),
                    pm == pair_view(*pairs_m),
                    pl == pair_view(*pairs_l),
                    pair_from_inventory(ps),
                    pair_from_inventory(pm),
                    pair_from_inventory(pl),
                    cs == combo_corners(ps, pm, pl),
                    forall|q2: int| 0 <= q2 < q ==> corner_possible(#[trigger] cs[q2]->Some_0, m@),
                decreases 8 - q,
            {
                proof {
                    lemma_combo_corner_faces(ps, pm, pl, q as int);
                }
                assert(cs[q as int]->Some_0 == corners@[q as int]);
                if !is_corner_possible(&corners[q], &m) {
                    return false;
                }
                q += 1;
            }
            true
        },
        None => false,
    }
}

/// No face belongs to both lists.
pub open spec fn faces_disjoint(a: Seq<Face>, b: Seq<Face>) -> bool {
    forall|x: int, y: int| 0 <= x < a.len() && 0 <= y < b.len() ==> a[x] != b[y]
}

/// No face stands in two of the six groups of a choice of pairs.
pub open spec fn pairs_disjoint(
    ps: (Seq<Face>, Seq<Face>),
    pm: (Seq<Face>, Seq<Face>),
    pl: (Seq<Face>, Seq<Face>),
) -> bool {
    &&& faces_disjoint(ps.0, pm.0) && faces_disjoint(ps.0, pm.1)
    &&& faces_disjoint(ps.1, pm.0) && faces_disjoint(ps.1, pm.1)
    &&& faces_disjoint(ps.0, pl.0) && faces_disjoint(ps.0, pl.1)
    &&& faces_disjoint(ps.1, pl.0) && faces_disjoint(ps.1, pl.1)
    &&& faces_disjoint(pm.0, pl.0) && faces_disjoint(pm.0, pl.1)
    &&& faces_disjoint(pm.1, pl.0) && faces_disjoint(pm.1, pl.1)
}

fn disjoint(a: &Vec<Face>, b: &Vec<Face>) -> (r: bool)
    ensures
        r == faces_disjoint(a@, b@),
{
    let mut x: usize = 0;
    while x < a.len()
        invariant
            x <= a@.len(),
            forall|x2: int, y: int| 0 <= x2 < x && 0 <= y < b@.len() ==> a@[x2] != b@[y],
        decreases a@.len() - x,
    {
        let mut y: usize = 0;
        while y < b.len()
            invariant
                x < a@.len(),
                y <= b@.len(),
                forall|x2: int, y2: int| 0 <= x2 < x && 0 <= y2 < b@.len() ==> a@[x2] != b@[y2],
                forall|y2: int| 0 <= y2 < y ==> a@[x as int] != b@[y2],
            decreases b@.len() - y,
        {
            if a[x] == b[y] {
                return false;
            }
            y += 1;
        }
        x += 1;
    }
    true
}

fn copy_pair(p: &(Vec<Face>, Vec<Face>)) -> (r: (Vec<Face>, Vec<Face>))
    ensures
        pair_view(r) == pair_view(*p),
{
    (copy_faces(&p.0), copy_faces(&p.1))
}

/// A choice of one pair of opposite outer faces per area class.
pub type SixCombo = ((Vec<Face>, Vec<Face>), (Vec<Face>, Vec<Face>), (Vec<Face>, Vec<Face>));

/// The 54 faces of the inventory, block by block, in the canonical order.
pub open spec fn inventory_faces() -> Seq<Face> {
    Seq::new(54, |x: int| inventory_face(x / 6, x % 6))
}

/// `cs` lists the combinations of inventory faces for an outer face of
/// `long` x `short` with sum `n` (see `combinations_to_n`).
pub open spec fn combination_list(cs: Seq<Seq<Face>>, long: int, short: int, n: int) -> bool {
    forall|s: Seq<Face>|
        #[trigger] cs.contains(s) == grown(seq![], inventory_faces(), 0, long, short, n).contains(s)
}

pub open spec fn lists_for(cs: Seq<Seq<Face>>, cm: Seq<Seq<Face>>, cl: Seq<Seq<Face>>, n: int) -> bool {
    &&& combination_list(cs, WIDTH as int, DEPTH as int, n)
    &&& combination_list(cm, HEIGHT as int, DEPTH as int, n)
    &&& combination_list(cl, HEIGHT as int, WIDTH as int, n)
}

pub type PairView = (Seq<Face>, Seq<Face>);

/// A choice of pairs that passes: no face used twice, and a consistent
/// labeling of every block's sides.
pub open spec fn chosen(t: (PairView, PairView, PairView)) -> bool {
    pairs_disjoint(t.0, t.1, t.2) && six_combo_ok(t.0, t.1, t.2)
}

/// A triple of pairs, one from each list, that passes.
pub open spec fn is_viable(
    ps: Seq<PairView>,
    pm: Seq<PairView>,
    pl: Seq<PairView>,
    t: (PairView, PairView, PairView),
) -> bool {
    ps.contains(t.0) && pm.contains(t.1) && pl.contains(t.2) && chosen(t)
}

pub open spec fn six_views(r: Seq<SixCombo>) -> Seq<(PairView, PairView, PairView)> {
    r.map_values(|c: SixCombo| (pair_view(c.0), pair_view(c.1), pair_view(c.2)))
}

/// Some passing triple of indices before (a, m, l) gives `t`.
pub open spec fn found_before(
    ps: Seq<PairView>,
    pm: Seq<PairView>,
    pl: Seq<PairView>,
    a: int,
    m: int,
    l: int,
    t: (PairView, PairView, PairView),
) -> bool {
    exists|i: int, j: int, k: int|
        0 <= i < ps.len() && 0 <= j < pm.len() && 0 <= k < pl.len() && before(i, j, k, a, m, l)
            && #[trigger] chosen((ps[i], pm[j], pl[k])) && t == (ps[i], pm[j], pl[k])
}

proof fn lemma_found_same(
    ps: Seq<PairView>,
    pm: Seq<PairView>,
    pl: Seq<PairView>,
    a: int,
    m: int,
    l: int,
    a2: int,
    m2: int,
    l2: int,
    t: (PairView, PairView, PairView),
)
    requires
        forall|i: int, j: int, k: int|
            0 <= i < ps.len() && 0 <= j < pm.len() && 0 <= k < pl.len() && chosen(
                (ps[i], pm[j], pl[k]),
            ) ==> #[trigger] before(i, j, k, a, m, l) == before(i, j, k, a2, m2, l2),
    ensures
        found_before(ps, pm, pl, a, m, l, t) == found_before(ps, pm, pl, a2, m2, l2, t),
{
    if found_before(ps, pm, pl, a, m, l, t) {
        let (i, j, k) = choose|i: int, j: int, k: int|
            0 <= i < ps.len() && 0 <= j < pm.len() && 0 <= k < pl.len() && before(i, j, k, a, m, l)
                && #[trigger] chosen((ps[i], pm[j], pl[k])) && t == (ps[i], pm[j], pl[k]);
        assert(before(i, j, k, a2, m2, l2));
    }
    if found_before(ps, pm, pl, a2, m2, l2, t) {
        let (i, j, k) = choose|i: int, j: int, k: int|
            0 <= i < ps.len() && 0 <= j < pm.len() && 0 <= k < pl.len() && before(i, j, k, a2, m2, l2)
                && #[trigger] chosen((ps[i], pm[j], pl[k])) && t == (ps[i], pm[j], pl[k]);
        assert(before(i, j, k, a, m, l));
    }
}

proof fn lemma_found_next(
    ps: Seq<PairView>,
    pm: Seq<PairView>,
    pl: Seq<PairView>,
    a: int,
    m: int,
    l: int,
    t: (PairView, PairView, PairView),
)
    requires
        0 <= a < ps.len(),
        0 <= m < pm.len(),
        0 <= l < pl.len(),
    ensures
        found_before(ps, pm, pl, a, m, l + 1, t) == (found_before(ps, pm, pl, a, m, l, t) || (chosen(
            (ps[a], pm[m], pl[l]),
        ) && t == (ps[a], pm[m], pl[l]))),
{
    if found_before(ps, pm, pl, a, m, l + 1, t) {
        let (i, j, k) = choose|i: int, j: int, k: int|
            0 <= i < ps.len() && 0 <= j < pm.len() && 0 <= k < pl.len() && before(i, j, k, a, m, l + 1)
                && #[trigger] chosen((ps[i], pm[j], pl[k])) && t == (ps[i], pm[j], pl[k]);
        if !(i == a && j == m && k == l) {
            assert(before(i, j, k, a, m, l));
        }
    }
    if found_before(ps, pm, pl, a, m, l, t) {
        let (i, j, k) = choose|i: int, j: int, k: int|
            0 <= i < ps.len() && 0 <= j < pm.len() && 0 <= k < pl.len() && before(i, j, k, a, m, l)
                && #[trigger] chosen((ps[i], pm[j], pl[k])) && t == (ps[i], pm[j], pl[k]);
        assert(before(i, j, k, a, m, l + 1));
    }
    if chosen((ps[a], pm[m], pl[l])) && t == (ps[a], pm[m], pl[l]) {
        assert(before(a, m, l, a, m, l + 1));
    }
}

/// The viable boundary assignments of the puzzle for face sum `target`: for
/// each area class (small W x D, medium H x D, large H x W) a pair of
/// combinations of block faces for two opposite outer faces, no face used
/// twice, and a consistent labeling of every block's sides. The result
/// holds exactly the passing triples of pairs drawn from the pairings of
/// the three lists of combinations.
pub fn solve(target: u8) -> (r: Vec<SixCombo>)
    ensures
        exists|cs: Seq<Seq<Face>>, cm: Seq<Seq<Face>>, cl: Seq<Seq<Face>>|
            {
                &&& #[trigger] lists_for(cs, cm, cl, target as int)
                &&& forall|t: (PairView, PairView, PairView)|
                    #[trigger] six_views(r@).contains(t) == is_viable(
                        pairs_from(cs, 0, WIDTH as int, DEPTH as int),
                        pairs_from(cm, 0, HEIGHT as int, DEPTH as int),
                        pairs_from(cl, 0, HEIGHT as int, WIDTH as int),
                        t,
                    )
            },
        forall|k: int| 0 <= k < r@.len() ==> chosen(#[trigger] six_views(r@)[k]),
{
    let blocks = crate::common::inventory();
    let mut all_faces: Vec<Face> = Vec::new();
    let mut b: usize = 0;
    while b < BLOCK_COUNT
        invariant
            b <= BLOCK_COUNT,
            blocks@.len() == BLOCK_COUNT,
            forall|j: int| 0 <= j < BLOCK_COUNT ==> #[trigger] crate::common::is_inventory_block(j, blocks@[j]),
            all_faces@.len() == 6 * b,
            forall|x: int| 0 <= x < all_faces@.len() ==> #[trigger] all_faces@[x] == inventory_face(x / 6, x % 6),
        decreases BLOCK_COUNT - b,
    {
        let mut k: usize = 0;
        while k < 6
            invariant
                b < BLOCK_COUNT,
                k <= 6,
                blocks@.len() == BLOCK_COUNT,
                forall|j: int| 0 <= j < BLOCK_COUNT ==> #[trigger] crate::common::is_inventory_block(j, blocks@[j]),
                all_faces@.len() == 6 * b + k,
                forall|x: int| 0 <= x < all_faces@.len() ==> #[trigger] all_faces@[x] == inventory_face(x / 6, x % 6),
            decreases 6 - k,
        {
            let ghost pre = all_faces@;
            assert(crate::common::is_inventory_block(b as int, blocks@[b as int]));
            all_faces.push(blocks[b].faces[k]);
            proof {
                let x = 6 * b + k;
                assert(x / 6 == b as int && x % 6 == k as int) by (nonlinear_arith)
                    requires
                        x == 6 * b + k,
                        k < 6,
                ;
                assert forall|x2: int| 0 <= x2 < all_faces@.len() implies #[trigger] all_faces@[x2] == inventory_face(x2 / 6, x2 % 6) by {
                    if x2 < pre.len() {
                        assert(all_faces@[x2] == pre[x2]);
                    }
                }
            }
            k += 1;
        }
        b += 1;
    }
    assert(all_faces@ =~= inventory_faces());
    assert(from_inventory(all_faces@)) by {
        assert forall|x: int| 0 <= x < all_faces@.len() implies (#[trigger] all_faces@[x]).block < BLOCK_COUNT by {
            assert(0 <= x / 6 < 9);
        }
    }
    let sols_small = combinations_to_n(all_faces.as_slice(), WIDTH, DEPTH, target);
    let sols_medium = combinations_to_n(all_faces.as_slice(), HEIGHT, DEPTH, target);
    let sols_large = combinations_to_n(all_faces.as_slice(), HEIGHT, WIDTH, target);
    let ghost cs = combo_views(sols_small@);
    let ghost cm = combo_views(sols_medium@);
    let ghost cl = combo_views(sols_large@);
    proof {
        lemma_listed_views(sols_small@);
        lemma_listed_views(sols_medium@);
        lemma_listed_views(sols_large@);
        assert(lists_for(cs, cm, cl, target as int));
        assert forall|i: int, x: int| 0 <= i < cs.len() && 0 <= x < cs[i].len() implies (#[trigger] cs[i][x]).block < BLOCK_COUNT by {
            assert(from_inventory(sols_small@[i]@));
        }
        assert forall|i: int, x: int| 0 <= i < cm.len() && 0 <= x < cm[i].len() implies (#[trigger] cm[i][x]).block < BLOCK_COUNT by {
            assert(from_inventory(sols_medium@[i]@));
        }
        assert forall|i: int, x: int| 0 <= i < cl.len() && 0 <= x < cl[i].len() implies (#[trigger] cl[i][x]).block < BLOCK_COUNT by {
            assert(from_inventory(sols_large@[i]@));
        }
    }
    let pairs_small = match_combos_in_pairs(sols_small, WIDTH, DEPTH);
    let pairs_medium = match_combos_in_pairs(sols_medium, HEIGHT, DEPTH);
    let pairs_large = match_combos_in_pairs(sols_large, HEIGHT, WIDTH);
    let ghost ps = pair_views(pairs_small@);
    let ghost pm = pair_views(pairs_medium@);
    let ghost pl = pair_views(pairs_large@);
    let mut result: Vec<SixCombo> = Vec::new();
    let mut a: usize = 0;
    proof {
        assert forall|t: (PairView, PairView, PairView)| #[trigger] six_views(result@).contains(t)
            == found_before(ps, pm, pl, 0, 0, 0, t) by {
            if found_before(ps, pm, pl, 0, 0, 0, t) {
                let (i, j, k) = choose|i: int, j: int, k: int|
                    0 <= i < ps.len() && 0 <= j < pm.len() && 0 <= k < pl.len() && before(i, j, k, 0, 0, 0)
                        && #[trigger] chosen((ps[i], pm[j], pl[k])) && t == (ps[i], pm[j], pl[k]);
            }
        }
    }
    while a < pairs_small.len()
        invariant
            a <= pairs_small@.len(),
            ps == pair_views(pairs_small@),
            pm == pair_views(pairs_medium@),
            pl == pair_views(pairs_large@),
            forall|k: int| 0 <= k < pairs_small@.len() ==> pair_from_inventory(pair_view(#[trigger] pairs_small@[k])),
            forall|k: int| 0 <= k < pairs_medium@.len() ==> pair_from_inventory(pair_view(#[trigger] pairs_medium@[k])),
            forall|k: int| 0 <= k < pairs_large@.len() ==> pair_from_inventory(pair_view(#[trigger] pairs_large@[k])),
            forall|k: int| 0 <= k < result@.len() ==> chosen(#[trigger] six_views(result@)[k]),
            forall|t: (PairView, PairView, PairView)| #[trigger] six_views(result@).contains(t)
                == found_before(ps, pm, pl, a as int, 0, 0, t),
        decreases pairs_small@.len() - a,
    {
        let pair_s = &pairs_small[a];
        let mut m: usize = 0;
        while m < pairs_medium.len()
            invariant
                a < pairs_small@.len(),
                m <= pairs_medium@.len(),
                *pair_s == pairs_small@[a as int],
                ps == pair_views(pairs_small@),
                pm == pair_views(pairs_medium@),
                pl == pair_views(pairs_large@),
                forall|k: int| 0 <= k < pairs_small@.len() ==> pair_from_inventory(pair_view(#[trigger] pairs_small@[k])),
                forall|k: int| 0 <= k < pairs_medium@.len() ==> pair_from_inventory(pair_view(#[trigger] pairs_medium@[k])),
                forall|k: int| 0 <= k < pairs_large@.len() ==> pair_from_inventory(pair_view(#[trigger] pairs_large@[k])),
                forall|k: int| 0 <= k < result@.len() ==> chosen(#[trigger] six_views(result@)[k]),
                forall|t: (PairView, PairView, PairView)| #[trigger] six_views(result@).contains(t)
                    == found_before(ps, pm, pl, a as int, m as int, 0, t),
            decreases pairs_medium@.len() - m,
        {
            let pair_m = &pairs_medium[m];
            assert(ps[a as int] == pair_view(*pair_s));
            assert(pm[m as int] == pair_view(*pair_m));
            if disjoint(&pair_s.0, &pair_m.0) && disjoint(&pair_s.0, &pair_m.1) && disjoint(
                &pair_s.1,
                &pair_m.0,
            ) && disjoint(&pair_s.1, &pair_m.1) {
                let mut l: usize = 0;
                while l < pairs_large.len()
                    invariant
                        a < pairs_small@.len(),
                        m < pairs_medium@.len(),
                        l <= pairs_large@.len(),
                        *pair_s == pairs_small@[a as int],
                        *pair_m == pairs_medium@[m as int],
                        ps == pair_views(pairs_small@),
                        pm == pair_views(pairs_medium@),
                        pl == pair_views(pairs_large@),
                        forall|k: int| 0 <= k < pairs_small@.len() ==> pair_from_inventory(pair_view(#[trigger] pairs_small@[k])),
                        forall|k: int| 0 <= k < pairs_medium@.len() ==> pair_from_inventory(pair_view(#[trigger] pairs_medium@[k])),
                        forall|k: int| 0 <= k < pairs_large@.len() ==> pair_from_inventory(pair_view(#[trigger] pairs_large@[k])),
                        faces_disjoint(pair_s.0@, pair_m.0@) && faces_disjoint(pair_s.0@, pair_m.1@),
                        faces_disjoint(pair_s.1@, pair_m.0@) && faces_disjoint(pair_s.1@, pair_m.1@),
                        forall|k: int| 0 <= k < result@.len() ==> chosen(#[trigger] six_views(result@)[k]),
                        forall|t: (PairView, PairView, PairView)| #[trigger] six_views(result@).contains(t)
                            == found_before(ps, pm, pl, a as int, m as int, l as int, t),
                    decreases pairs_large@.len() - l,
                {
                    let pair_l = &pairs_large[l];
                    assert(pl[l as int] == pair_view(*pair_l));
                    assert(pair_from_inventory(pair_view(pairs_small@[a as int])));
                    assert(pair_from_inventory(pair_view(pairs_medium@[m as int])));
                    assert(pair_from_inventory(pair_view(pairs_large@[l as int])));
                    let ghost triple = (ps[a as int], pm[m as int], pl[l as int]);
                    let ghost before_push = result@;
                    let keep = disjoint(&pair_s.0, &pair_l.0) && disjoint(&pair_s.0, &pair_l.1)
                        && disjoint(&pair_s.1, &pair_l.0) && disjoint(&pair_s.1, &pair_l.1)
                        && disjoint(&pair_m.0, &pair_l.0) && disjoint(&pair_m.0, &pair_l.1)
                        && disjoint(&pair_m.1, &pair_l.0) && disjoint(&pair_m.1, &pair_l.1)
                        && compatible_six_combo(pair_s, pair_m, pair_l);
                    assert(keep == chosen(triple));
                    if keep {
                        result.push((copy_pair(pair_s), copy_pair(pair_m), copy_pair(pair_l)));
                    }
                    proof {
                        assert forall|t: (PairView, PairView, PairView)| #[trigger] six_views(result@).contains(t)
                            == found_before(ps, pm, pl, a as int, m as int, l + 1, t) by {
                            lemma_found_next(ps, pm, pl, a as int, m as int, l as int, t);
                            if keep {
                                assert(six_views(result@) =~= six_views(before_push).push(triple));
                                if six_views(before_push).contains(t) {
                                    let x = choose|x: int| 0 <= x < six_views(before_push).len() && six_views(before_push)[x] == t;
                                    assert(six_views(result@)[x] == t);
                                }
                                if t == triple {
                                    assert(six_views(result@)[before_push.len() as int] == t);
                                }
                                if six_views(result@).contains(t) {
                                    let x = choose|x: int| 0 <= x < six_views(result@).len() && six_views(result@)[x] == t;
                                    if x < before_push.len() {
                                        assert(six_views(before_push)[x] == t);
                                    }
                                }
                            }
                        }
                        assert forall|k: int| 0 <= k < result@.len() implies chosen(#[trigger] six_views(result@)[k]) by {
                            if k < before_push.len() {
                                assert(six_views(result@)[k] == six_views(before_push)[k]);
                            }
                        }
                    }
                    l += 1;
                }
                proof {
                    assert forall|t: (PairView, PairView, PairView)| #[trigger] six_views(result@).contains(t)
                        == found_before(ps, pm, pl, a as int, m + 1, 0, t) by {
                        lemma_found_same(ps, pm, pl, a as int, m as int, l as int, a as int, m + 1, 0, t);
                    }
                }
            } else {
                proof {
                    assert forall|t: (PairView, PairView, PairView)| #[trigger] six_views(result@).contains(t)
                        == found_before(ps, pm, pl, a as int, m + 1, 0, t) by {
                        assert forall|i: int, j: int, k: int|
                            0 <= i < ps.len() && 0 <= j < pm.len() && 0 <= k < pl.len() && chosen(
                                (ps[i], pm[j], pl[k]),
                            ) implies #[trigger] before(i, j, k, a as int, m as int, 0) == before(i, j, k, a as int, m + 1, 0) by {
                            if i == a && j == m {
                                assert(!pairs_disjoint(ps[i], pm[j], pl[k]));
                            }
                        }
                        lemma_found_same(ps, pm, pl, a as int, m as int, 0, a as int, m + 1, 0, t);
                    }
                }
            }
            m += 1;
        }
        proof {
            assert forall|t: (PairView, PairView, PairView)| #[trigger] six_views(result@).contains(t)
                == found_before(ps, pm, pl, a + 1, 0, 0, t) by {
                lemma_found_same(ps, pm, pl, a as int, m as int, 0, a + 1, 0, 0, t);
            }
        }
        a += 1;
    }
    proof {
        let pss = pairs_from(cs, 0, WIDTH as int, DEPTH as int);
        assert(ps == pss);
        assert(pm == pairs_from(cm, 0, HEIGHT as int, DEPTH as int));
        assert(pl == pairs_from(cl, 0, HEIGHT as int, WIDTH as int));
        assert forall|t: (PairView, PairView, PairView)| #[trigger] six_views(result@).contains(t)
            == is_viable(ps, pm, pl, t) by {
            if is_viable(ps, pm, pl, t) {
                let i = choose|i: int| 0 <= i < ps.len() && ps[i] == t.0;
                let j = choose|j: int| 0 <= j < pm.len() && pm[j] == t.1;
                let k = choose|k: int| 0 <= k < pl.len() && pl[k] == t.2;
                assert(before(i, j, k, ps.len() as int, 0, 0));
                assert(chosen((ps[i], pm[j], pl[k])));
            }
            if found_before(ps, pm, pl, ps.len() as int, 0, 0, t) {
                let (i, j, k) = choose|i: int, j: int, k: int|
                    0 <= i < ps.len() && 0 <= j < pm.len() && 0 <= k < pl.len() && before(i, j, k, ps.len() as int, 0, 0)
                        && #[trigger] chosen((ps[i], pm[j], pl[k])) && t == (ps[i], pm[j], pl[k]);
                assert(ps.contains(t.0));
                assert(pm.contains(t.1));
                assert(pl.contains(t.2));
            }
        }
    }
    result
}

/// A list of combinations holds exactly what its views hold.
proof fn lemma_listed_views(sols: Seq<Vec<Face>>)
    ensures
        forall|s: Seq<Face>| #[trigger] combo_views(sols).contains(s) == listed(sols).contains(s),
{
    assert forall|s: Seq<Face>| #[trigger] combo_views(sols).contains(s) == listed(sols).contains(s) by {
        if combo_views(sols).contains(s) {
            let k = choose|k: int| 0 <= k < combo_views(sols).len() && combo_views(sols)[k] == s;
            assert(sols[k]@ == s);
        }
        if listed(sols).contains(s) {
            let k = choose|k: int| 0 <= k < sols.len() && (#[trigger] sols[k])@ == s;
            assert(combo_views(sols)[k] == s);
        }
    }
}

} // verus!
