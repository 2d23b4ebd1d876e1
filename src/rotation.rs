use crate::common::{
    canonical, dir_at, dir_index, lemma_dir_at_index, lemma_dir_index_bounds, opposite_dir, Block,
    BlockView, Dir, Face,
};
use itertools::Itertools;
use vstd::prelude::*;

verus! {

/// Where a side of a block looking towards `d` looks after a quarter turn
/// about `axis`. The two sides along the axis stay in place; the four others
/// move round in a cycle.
pub open spec fn rot_dir(axis: Dir, d: Dir) -> Dir {
    match (axis, d) {
        (Dir::Front, Dir::Left) | (Dir::Back, Dir::Right) => Dir::Bottom,
        (Dir::Front, Dir::Right) | (Dir::Back, Dir::Left) => Dir::Top,
        (Dir::Front, Dir::Top) | (Dir::Back, Dir::Bottom) => Dir::Left,
        (Dir::Front, Dir::Bottom) | (Dir::Back, Dir::Top) => Dir::Right,
        (Dir::Left, Dir::Front) | (Dir::Right, Dir::Back) => Dir::Top,
        (Dir::Left, Dir::Back) | (Dir::Right, Dir::Front) => Dir::Bottom,
        (Dir::Left, Dir::Top) | (Dir::Right, Dir::Bottom) => Dir::Back,
        (Dir::Left, Dir::Bottom) | (Dir::Right, Dir::Top) => Dir::Front,
        (Dir::Top, Dir::Front) | (Dir::Bottom, Dir::Back) => Dir::Right,
        (Dir::Top, Dir::Back) | (Dir::Bottom, Dir::Front) => Dir::Left,
        (Dir::Top, Dir::Left) | (Dir::Bottom, Dir::Right) => Dir::Front,
        (Dir::Top, Dir::Right) | (Dir::Bottom, Dir::Left) => Dir::Back,
        _ => d,
    }
}

pub open spec fn rot_face_spec(axis: Dir, f: Face) -> Face {
    Face { dir: rot_dir(axis, f.dir), ..f }
}

/// The canonical face list of a block after a quarter turn about `axis`:
/// position `k` holds the rotated face that now looks towards `dir_at(k)`,
/// that is the one that looked towards the image of `dir_at(k)` under the
/// opposite turn.
pub open spec fn rotated_faces(axis: Dir, faces: Seq<Face>) -> Seq<Face> {
    Seq::new(
        6,
        |k: int| rot_face_spec(axis, faces[dir_index(rot_dir(opposite_dir(axis), dir_at(k)))]),
    )
}

/// A block after a quarter turn about `axis`: the two dimensions across the
/// axis are swapped.
pub open spec fn rotated(axis: Dir, b: BlockView) -> BlockView {
    let faces = rotated_faces(axis, b.faces);
    match axis {
        Dir::Front | Dir::Back => BlockView {
            height: b.width,
            width: b.height,
            depth: b.depth,
            faces,
            label: b.label,
        },
        Dir::Left | Dir::Right => BlockView {
            height: b.depth,
            width: b.width,
            depth: b.height,
            faces,
            label: b.label,
        },
        Dir::Top | Dir::Bottom => BlockView {
            height: b.height,
            width: b.depth,
            depth: b.width,
            faces,
            label: b.label,
        },
    }
}

/// A block after the quarter turns of `rots`, first to last.
pub open spec fn rotated_by(rots: Seq<Dir>, b: BlockView) -> BlockView
    decreases rots.len(),
{
    if rots.len() == 0 {
        b
    } else {
        rotated(rots.last(), rotated_by(rots.drop_last(), b))
    }
}

/// A quarter turn and the opposite quarter turn undo each other.
proof fn lemma_rot_dir_inverse(axis: Dir, d: Dir)
    ensures
        rot_dir(opposite_dir(axis), rot_dir(axis, d)) == d,
        rot_dir(axis, rot_dir(opposite_dir(axis), d)) == d,
{
}

proof fn lemma_rotated_faces_canonical(axis: Dir, faces: Seq<Face>)
    requires
        canonical(faces),
    ensures
        canonical(rotated_faces(axis, faces)),
{
    assert forall|k: int| 0 <= k < 6 implies (#[trigger] rotated_faces(axis, faces)[k]).dir
        == dir_at(k) by {
        let j = dir_index(rot_dir(opposite_dir(axis), dir_at(k)));
        lemma_dir_index_bounds(rot_dir(opposite_dir(axis), dir_at(k)));
        lemma_rot_dir_inverse(axis, dir_at(k));
        assert(faces[j].dir == dir_at(j));
    }
}

pub proof fn lemma_rotated_wf(axis: Dir, b: BlockView)
    requires
        b.wf(),
    ensures
        rotated(axis, b).wf(),
{
    lemma_rotated_faces_canonical(axis, b.faces);
}

/// Turning a block keeps its dimensions positive.
pub proof fn lemma_rotated_by_dims(rots: Seq<Dir>, b: BlockView)
    requires
        1 <= b.height,
        1 <= b.width,
        1 <= b.depth,
    ensures
        1 <= rotated_by(rots, b).height,
        1 <= rotated_by(rots, b).width,
        1 <= rotated_by(rots, b).depth,
    decreases rots.len(),
{
    if rots.len() > 0 {
        lemma_rotated_by_dims(rots.drop_last(), b);
    }
}

/// Four quarter turns about the same axis give back the block unchanged.
pub proof fn lemma_four_turns_identity(axis: Dir, b: BlockView)
    requires
        b.wf(),
    ensures
        rotated(axis, rotated(axis, rotated(axis, rotated(axis, b)))) == b,
{
    let b1 = rotated(axis, b);
    let b2 = rotated(axis, b1);
    let b3 = rotated(axis, b2);
    let b4 = rotated(axis, b3);
    lemma_rotated_wf(axis, b);
    lemma_rotated_wf(axis, b1);
    lemma_rotated_wf(axis, b2);
    assert forall|k: int| 0 <= k < 6 implies #[trigger] b4.faces[k] == b.faces[k] by {
        let o = opposite_dir(axis);
        let d1 = rot_dir(o, dir_at(k));
        let d2 = rot_dir(o, d1);
        let d3 = rot_dir(o, d2);
        let d4 = rot_dir(o, d3);
        lemma_dir_index_bounds(d1);
        lemma_dir_index_bounds(d2);
        lemma_dir_index_bounds(d3);
        lemma_dir_index_bounds(d4);
        assert(b4.faces[k] == rot_face_spec(axis, b3.faces[dir_index(d1)]));
        assert(b3.faces[dir_index(d1)] == rot_face_spec(axis, b2.faces[dir_index(d2)]));
        assert(b2.faces[dir_index(d2)] == rot_face_spec(axis, b1.faces[dir_index(d3)]));
        assert(b1.faces[dir_index(d3)] == rot_face_spec(axis, b.faces[dir_index(d4)]));
        assert(d4 == dir_at(k));
        lemma_dir_at_index(k);
    }
    assert(b4.faces =~= b.faces);
}

/// The face `face` after a quarter turn about `axis`.
pub fn rot_face(axis: &Dir, face: &Face) -> (r: Face)
    ensures
        r == rot_face_spec(*axis, *face),
{
    let dir = match (axis, face.dir) {
        (Dir::Front, Dir::Left) | (Dir::Back, Dir::Right) => Dir::Bottom,
        (Dir::Front, Dir::Right) | (Dir::Back, Dir::Left) => Dir::Top,
        (Dir::Front, Dir::Top) | (Dir::Back, Dir::Bottom) => Dir::Left,
        (Dir::Front, Dir::Bottom) | (Dir::Back, Dir::Top) => Dir::Right,
        (Dir::Left, Dir::Front) | (Dir::Right, Dir::Back) => Dir::Top,
        (Dir::Left, Dir::Back) | (Dir::Right, Dir::Front) => Dir::Bottom,
        (Dir::Left, Dir::Top) | (Dir::Right, Dir::Bottom) => Dir::Back,
        (Dir::Left, Dir::Bottom) | (Dir::Right, Dir::Top) => Dir::Front,
        (Dir::Top, Dir::Front) | (Dir::Bottom, Dir::Back) => Dir::Right,
        (Dir::Top, Dir::Back) | (Dir::Bottom, Dir::Front) => Dir::Left,
        (Dir::Top, Dir::Left) | (Dir::Bottom, Dir::Right) => Dir::Front,
        (Dir::Top, Dir::Right) | (Dir::Bottom, Dir::Left) => Dir::Back,
        (_, d) => d,
    };
    Face { dir, ..*face }
}

/// The sort key of a face: the position of its direction in the canonical
/// order.
fn face_order(face: &Face) -> (r: usize)
    ensures
        r == dir_index(face.dir),
{
    face.dir.index()
}

/// Relies on itertools' `Itertools::sorted_by_key`: the same faces, in
/// ascending order of the key (a stable sort; the keys met here are
/// distinct, so stability is not needed).
#[verifier::external_body]
fn sort_faces_by_dir(faces: Vec<Face>) -> (r: Vec<Face>)
    ensures
        r@.to_multiset() == faces@.to_multiset(),
        forall|i: int, j: int|
            0 <= i <= j < r@.len() ==> dir_index(#[trigger] r@[i].dir) <= dir_index(
                #[trigger] r@[j].dir,
            ),
{
    faces.into_iter().sorted_by_key(face_order).collect()
}

/// Some face of `s` looks towards `dir_at(k)`.
spec fn looks_towards(s: Seq<Face>, k: int) -> bool {
    exists|p: int| 0 <= p < 6 && dir_index(#[trigger] s[p].dir) == k
}

/// Both lists hold the same faces: each face of one occurs in the other.
proof fn lemma_same_faces(s: Seq<Face>, m: Seq<Face>)
    requires
        s.to_multiset() == m.to_multiset(),
    ensures
        s.len() == m.len(),
        forall|j: int| 0 <= j < m.len() ==> s.contains(#[trigger] m[j]),
        forall|p: int| 0 <= p < s.len() ==> m.contains(#[trigger] s[p]),
{
    broadcast use vstd::seq_lib::group_to_multiset_ensures;

    vstd::seq_lib::to_multiset_len(s);
    vstd::seq_lib::to_multiset_len(m);
    s.to_multiset_ensures();
    m.to_multiset_ensures();
    assert forall|j: int| 0 <= j < m.len() implies s.contains(#[trigger] m[j]) by {
        assert(m.contains(m[j]));
        assert(m.to_multiset().count(m[j]) > 0);
        assert(s.to_multiset().count(m[j]) > 0);
    }
    assert forall|p: int| 0 <= p < s.len() implies m.contains(#[trigger] s[p]) by {
        assert(s.contains(s[p]));
        assert(s.to_multiset().count(s[p]) > 0);
        assert(m.to_multiset().count(s[p]) > 0);
    }
}

/// Six faces sorted by direction, looking in all six directions, are in the
/// canonical order.
proof fn lemma_sorted_six(s: Seq<Face>)
    requires
        s.len() == 6,
        forall|i: int, j: int|
            0 <= i <= j < s.len() ==> dir_index(#[trigger] s[i].dir) <= dir_index(
                #[trigger] s[j].dir,
            ),
        forall|k: int| 0 <= k < 6 ==> #[trigger] looks_towards(s, k),
    ensures
        forall|p: int| 0 <= p < 6 ==> dir_index(#[trigger] s[p].dir) == p,
{
    assert forall|p: int| 0 <= p < 6 implies 0 <= dir_index(#[trigger] s[p].dir) < 6 by {
        lemma_dir_index_bounds(s[p].dir);
    }
    assert(looks_towards(s, 0) && looks_towards(s, 1) && looks_towards(s, 2));
    assert(looks_towards(s, 3) && looks_towards(s, 4) && looks_towards(s, 5));
    assert(dir_index(s[0].dir) <= dir_index(s[1].dir));
    assert(dir_index(s[1].dir) <= dir_index(s[2].dir));
    assert(dir_index(s[2].dir) <= dir_index(s[3].dir));
    assert(dir_index(s[3].dir) <= dir_index(s[4].dir));
    assert(dir_index(s[4].dir) <= dir_index(s[5].dir));
}

/// Sorting the turned faces of a canonical list by direction gives the
/// rotated canonical list.
proof fn lemma_sorted_turned_faces(axis: Dir, faces: Seq<Face>, m: Seq<Face>, s: Seq<Face>)
    requires
        canonical(faces),
        m == Seq::new(6, |j: int| rot_face_spec(axis, faces[j])),
        s.to_multiset() == m.to_multiset(),
        forall|i: int, j: int|
            0 <= i <= j < s.len() ==> dir_index(#[trigger] s[i].dir) <= dir_index(
                #[trigger] s[j].dir,
            ),
    ensures
        s == rotated_faces(axis, faces),
{
    lemma_same_faces(s, m);
    assert forall|k: int| 0 <= k < 6 implies #[trigger] looks_towards(s, k) by {
        let j = dir_index(rot_dir(opposite_dir(axis), dir_at(k)));
        lemma_dir_index_bounds(rot_dir(opposite_dir(axis), dir_at(k)));
        lemma_rot_dir_inverse(axis, dir_at(k));
        lemma_dir_at_index(k);
        assert(faces[j].dir == dir_at(j));
        assert(m[j].dir == dir_at(k));
        assert(s.contains(m[j]));
        let p = choose|p: int| 0 <= p < s.len() && s[p] == m[j];
        assert(dir_index(s[p].dir) == k);
    }
    lemma_sorted_six(s);
    let want = rotated_faces(axis, faces);
    assert forall|p: int| 0 <= p < 6 implies #[trigger] s[p] == want[p] by {
        assert(dir_index(s[p].dir) == p);
        assert(m.contains(s[p]));
        let j = choose|j: int| 0 <= j < m.len() && m[j] == s[p];
        assert(faces[j].dir == dir_at(j));
        lemma_rot_dir_inverse(axis, dir_at(j));
        lemma_dir_at_index(j);
        lemma_dir_index_bounds(s[p].dir);
        assert(dir_at(p) == s[p].dir);
        assert(rot_dir(opposite_dir(axis), dir_at(p)) == dir_at(j));
    }
    assert(s =~= want);
}

/// The faces of a block after a quarter turn about `axis`, put back in the
/// canonical order.
pub fn rot_faces(axis: &Dir, faces: &[Face; 6]) -> (r: [Face; 6])
    requires
        canonical(faces@),
    ensures
        r@ == rotated_faces(*axis, faces@),
{
    let mut turned: Vec<Face> = Vec::new();
    let mut i: usize = 0;
    while i < 6
        invariant
            i <= 6,
            turned@ == Seq::new(i as nat, |j: int| rot_face_spec(*axis, faces@[j])),
        decreases 6 - i,
    {
        turned.push(rot_face(axis, &faces[i]));
        i += 1;
        assert(turned@ =~= Seq::new(i as nat, |j: int| rot_face_spec(*axis, faces@[j])));
    }
    let sorted = sort_faces_by_dir(turned);
    proof {
        lemma_sorted_turned_faces(*axis, faces@, turned@, sorted@);
    }
    let r = [sorted[0], sorted[1], sorted[2], sorted[3], sorted[4], sorted[5]];
    assert(r@ =~= rotated_faces(*axis, faces@));
    r
}

/// The block after a quarter turn about `axis`.
pub fn rot_block(axis: &Dir, block: &Block) -> (r: Block)
    requires
        block.wf(),
    ensures
        r@ == rotated(*axis, block@),
        r.wf(),
{
    let faces = rot_faces(axis, &block.faces);
    let r = match axis {
        Dir::Front | Dir::Back => Block {
            height: block.width,
            width: block.height,
            depth: block.depth,
            faces,
            label: block.label,
        },
        Dir::Left | Dir::Right => Block {
            height: block.depth,
            width: block.width,
            depth: block.height,
            faces,
            label: block.label,
        },
        Dir::Top | Dir::Bottom => Block {
            height: block.height,
            width: block.depth,
            depth: block.width,
            faces,
            label: block.label,
        },
    };
    proof {
        lemma_rotated_wf(*axis, block@);
    }
    r
}

/// The block after the quarter turns of `rots`, first to last.
fn rot_block_by(rots: &Vec<Dir>, block: &Block) -> (r: Block)
    requires
        block.wf(),
    ensures
        r@ == rotated_by(rots@, block@),
        r.wf(),
{
    let mut res = *block;
    let mut i: usize = 0;
    while i < rots.len()
        invariant
            i <= rots@.len(),
            res@ == rotated_by(rots@.take(i as int), block@),
            res.wf(),
        decreases rots@.len() - i,
    {
        proof {
            assert(rots@.take(i + 1).drop_last() =~= rots@.take(i as int));
        }
        res = rot_block(&rots[i], &res);
        i += 1;
    }
    assert(rots@.take(i as int) =~= rots@);
    res
}

/// The six face-up selections: turns that lay the block's height, width and
/// depth along the three axes in each of the six possible ways, in the order
/// the search relies on. The first one leaves the block as it is.
pub open spec fn face_up_turns(i: int) -> Seq<Dir> {
    if i == 0 {
        seq![]
    } else if i == 1 {
        seq![Dir::Top]
    } else if i == 2 {
        seq![Dir::Back]
    } else if i == 3 {
        seq![Dir::Back, Dir::Top]
    } else if i == 4 {
        seq![Dir::Right]
    } else {
        seq![Dir::Right, Dir::Top]
    }
}

/// The four spins that follow a face-up selection: none, then half turns
/// about Top, Right and Back. A half turn keeps the block's dimensions along
/// the same axes.
pub open spec fn spin_turns(i: int) -> Seq<Dir> {
    if i == 0 {
        seq![]
    } else if i == 1 {
        seq![Dir::Top, Dir::Top]
    } else if i == 2 {
        seq![Dir::Right, Dir::Right]
    } else {
        seq![Dir::Back, Dir::Back]
    }
}

fn face_up_turns_exec(i: usize) -> (r: Vec<Dir>)
    requires
        i < 6,
    ensures
        r@ == face_up_turns(i as int),
{
    let r = if i == 0 {
        vec![]
    } else if i == 1 {
        vec![Dir::Top]
    } else if i == 2 {
        vec![Dir::Back]
    } else if i == 3 {
        vec![Dir::Back, Dir::Top]
    } else if i == 4 {
        vec![Dir::Right]
    } else {
        vec![Dir::Right, Dir::Top]
    };
    assert(r@ =~= face_up_turns(i as int));
    r
}

fn spin_turns_exec(i: usize) -> (r: Vec<Dir>)
    requires
        i < 4,
    ensures
        r@ == spin_turns(i as int),
{
    let r = if i == 0 {
        vec![]
    } else if i == 1 {
        vec![Dir::Top, Dir::Top]
    } else if i == 2 {
        vec![Dir::Right, Dir::Right]
    } else {
        vec![Dir::Back, Dir::Back]
    };
    assert(r@ =~= spin_turns(i as int));
    r
}

pub open spec fn shape(b: BlockView) -> (u8, u8, u8) {
    (b.height, b.width, b.depth)
}

/// The blocks of `s` that have a shape no earlier block of `s` has, in order.
pub open spec fn first_of_each_shape(s: Seq<BlockView>) -> Seq<BlockView>
    decreases s.len(),
{
    if s.len() == 0 {
        seq![]
    } else {
        let p = first_of_each_shape(s.drop_last());
        if exists|i: int| 0 <= i < s.len() - 1 && shape(#[trigger] s[i]) == shape(s.last()) {
            p
        } else {
            p.push(s.last())
        }
    }
}

pub open spec fn views(s: Seq<Block>) -> Seq<BlockView> {
    s.map_values(|b: Block| b@)
}

fn shape_of(block: &Block) -> (r: (u8, u8, u8))
    ensures
        r == shape(block@),
{
    (block.height, block.width, block.depth)
}

/// Relies on itertools' `Itertools::unique_by`: the blocks whose key was
/// not met before, in their order.
#[verifier::external_body]
fn unique_shapes(blocks: Vec<Block>) -> (r: Vec<Block>)
    ensures
        views(r@) == first_of_each_shape(views(blocks@)),
{
    blocks.into_iter().unique_by(shape_of).collect()
}

/// The six face-up rotations of a block, as a shape.
pub open spec fn face_up_rotations(b: BlockView) -> Seq<BlockView> {
    Seq::new(6, |i: int| rotated_by(face_up_turns(i), b))
}

/// The rotational variants of a block seen as a faceless shape: the six
/// face-up rotations, keeping only the first of each (height, width, depth).
/// That leaves six, three (square base) or one (cube).
pub fn shape_rots(block: &Block) -> (r: Vec<Block>)
    requires
        block.wf(),
    ensures
        views(r@) == first_of_each_shape(face_up_rotations(block@)),
        forall|i: int| 0 <= i < r@.len() ==> (#[trigger] r@[i]).wf(),
        forall|i: int|
            0 <= i < r@.len() ==> exists|n: int|
                0 <= n < 6 && (#[trigger] r@[i])@ == rotated_by(face_up_turns(n), block@),
{
    let mut result: Vec<Block> = Vec::new();
    let mut i: usize = 0;
    while i < 6
        invariant
            i <= 6,
            block.wf(),
            views(result@) =~= face_up_rotations(block@).take(i as int),
            forall|j: int| 0 <= j < result@.len() ==> (#[trigger] result@[j]).wf(),
        decreases 6 - i,
    {
        let rots = face_up_turns_exec(i);
        let res = rot_block_by(&rots, block);
        let ghost before = result@;
        result.push(res);
        proof {
            assert(views(result@) =~= views(before).push(res@));
            assert(face_up_rotations(block@).take(i + 1) =~= face_up_rotations(block@).take(
                i as int,
            ).push(rotated_by(face_up_turns(i as int), block@)));
        }
        i += 1;
    }
    assert(face_up_rotations(block@).take(6) =~= face_up_rotations(block@));
    let r = unique_shapes(result);
    proof {
        lemma_first_of_each_shape_from(views(result@));
        assert forall|j: int| 0 <= j < r@.len() implies (#[trigger] r@[j]).wf() by {
            assert(views(r@)[j] == r@[j]@);
            let k = choose|k: int| 0 <= k < result@.len() && views(result@)[k] == views(r@)[j];
            assert(result@[k].wf());
        }
        assert forall|j: int| 0 <= j < r@.len() implies exists|n: int|
            0 <= n < 6 && (#[trigger] r@[j])@ == rotated_by(face_up_turns(n), block@) by {
            assert(views(r@)[j] == r@[j]@);
            let k = choose|k: int| 0 <= k < result@.len() && views(result@)[k] == views(r@)[j];
            assert(views(result@)[k] == face_up_rotations(block@)[k]);
        }
    }
    r
}

/// Each block kept by `first_of_each_shape` comes from the list.
proof fn lemma_first_of_each_shape_from(s: Seq<BlockView>)
    ensures
        forall|j: int|
            0 <= j < first_of_each_shape(s).len() ==> exists|k: int|
                0 <= k < s.len() && s[k] == #[trigger] first_of_each_shape(s)[j],
    decreases s.len(),
{
    if s.len() > 0 {
        lemma_first_of_each_shape_from(s.drop_last());
        let p = first_of_each_shape(s.drop_last());
        assert forall|j: int| 0 <= j < first_of_each_shape(s).len() implies exists|k: int|
            0 <= k < s.len() && s[k] == #[trigger] first_of_each_shape(s)[j] by {
            if j < p.len() {
                let k = choose|k: int| 0 <= k < s.drop_last().len() && s.drop_last()[k] == p[j];
                assert(s[k] == first_of_each_shape(s)[j]);
            } else {
                assert(s[s.len() - 1] == first_of_each_shape(s)[j]);
            }
        }
    }
}

/// The 24 rotations of a block, in this order: for each of the four spins,
/// the six face-up rotations followed by that spin.
///
/// The order matters: the first six entries, one per face-up selection,
/// are representatives of the rotations up to the half turns that map the
/// 12x11x9 puzzle onto itself; the labeled search of that puzzle tries only
/// those for its first placement.
pub open spec fn rotation_turns(n: int) -> Seq<Dir> {
    face_up_turns(n % 6) + spin_turns(n / 6)
}

/// The 24 rotations of a block, grouped as four spins times six face-up
/// choices (see `rotation_turns`).
pub fn all_rots(block: &Block) -> (r: Vec<Block>)
    requires
        block.wf(),
    ensures
        r@.len() == 24,
        forall|n: int| 0 <= n < 24 ==> (#[trigger] r@[n])@ == rotated_by(rotation_turns(n), block@),
        forall|n: int| 0 <= n < 24 ==> (#[trigger] r@[n]).wf(),
        // the first six: one rotation per face up, unspun
        forall|n: int|
            0 <= n < 6 ==> (#[trigger] r@[n])@ == rotated_by(face_up_turns(n), block@),
{
    proof {
        assert forall|n: int| 0 <= n < 6 implies #[trigger] rotation_turns(n) == face_up_turns(n) by {
            assert(face_up_turns(n) + seq![] =~= face_up_turns(n));
        }
    }
    let mut result: Vec<Block> = Vec::new();
    let mut j: usize = 0;
    while j < 4
        invariant
            j <= 4,
            block.wf(),
            result@.len() == 6 * j,
            forall|n: int|
                0 <= n < result@.len() ==> (#[trigger] result@[n])@ == rotated_by(
                    rotation_turns(n),
                    block@,
                ),
            forall|n: int| 0 <= n < result@.len() ==> (#[trigger] result@[n]).wf(),
        decreases 4 - j,
    {
        let mut i: usize = 0;
        while i < 6
            invariant
                j < 4,
                i <= 6,
                block.wf(),
                result@.len() == 6 * j + i,
                forall|n: int|
                    0 <= n < result@.len() ==> (#[trigger] result@[n])@ == rotated_by(
                        rotation_turns(n),
                        block@,
                    ),
                forall|n: int| 0 <= n < result@.len() ==> (#[trigger] result@[n]).wf(),
            decreases 6 - i,
        {
            let mut turns = face_up_turns_exec(i);
            let mut spin = spin_turns_exec(j);
            turns.append(&mut spin);
            let res = rot_block_by(&turns, block);
            proof {
                let n = 6 * j + i;
                assert(n % 6 == i as int && n / 6 == j as int) by (nonlinear_arith)
                    requires
                        n == 6 * j + i,
                        i < 6,
                ;
                assert(turns@ =~= rotation_turns(n));
            }
            result.push(res);
            i += 1;
        }
        j += 1;
    }
    result
}

} // verus!
