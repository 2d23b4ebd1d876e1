use vstd::prelude::*;

verus! {

// The puzzle is a cuboid of 12x11x9 cells, filled by nine smaller cuboids
// (blocks). Each face of each block carries a value; the puzzle is solved
// when, on each of the six outer faces of the puzzle, the values of the
// visible block faces add up to 100.
pub const BLOCK_COUNT: usize = 9;

pub const HEIGHT: u8 = 12;

pub const WIDTH: u8 = 11;

pub const DEPTH: u8 = 9;

pub const AREA_L: u8 = 132;

pub const AREA_M: u8 = 108;

pub const AREA_S: u8 = 99;

pub const VOLUME: usize = 1188;

pub const TARGET_SUM: u8 = 100;

/// (height, width, depth) of each block of the inventory.
pub const BLOCK_DIMS: [[u8; 3]; 9] = [
    [9, 6, 5],
    [9, 6, 3],
    [9, 5, 5],
    [9, 4, 3],
    [9, 4, 2],
    [6, 5, 4],
    [6, 4, 4],
    [5, 5, 3],
    [5, 4, 3],
];

/// The value of each face of each block, in the order Front, Back, Left,
/// Right, Top, Bottom.
pub const FACE_VALUES: [[u8; 6]; 9] = [
    [43, 18, 7, 47, 36, 14],
    [34, 31, 41, 24, 16, 33],
    [38, 53, 8, 44, 30, 22],
    [49, 15, 27, 9, 3, 54],
    [29, 11, 48, 37, 45, 51],
    [6, 23, 4, 50, 19, 32],
    [1, 40, 13, 25, 52, 46],
    [10, 20, 28, 35, 5, 17],
    [39, 42, 21, 2, 26, 12],
];

pub const BLOCK_LABELS: [&'static str; 9] = [
    "bigger_chunk",
    "thinner_chunk",
    "square_chunk",
    "small_chunk",
    "smaller_chunk",
    "big_brick",
    "long_square",
    "short_square",
    "small_brick",
];

/// One of the six cardinal directions; also names the six sides of a block
/// and the six outer faces of the puzzle.
#[derive(Clone, Copy, PartialEq, Eq, Structural, PartialOrd, Ord, Debug, Hash)]
pub enum Dir {
    Front,
    Back,
    Left,
    Right,
    Top,
    Bottom,
}

/// Position of a direction in the canonical order Front, Back, Left, Right,
/// Top, Bottom.
pub open spec fn dir_index(d: Dir) -> int {
    match d {
        Dir::Front => 0,
        Dir::Back => 1,
        Dir::Left => 2,
        Dir::Right => 3,
        Dir::Top => 4,
        Dir::Bottom => 5,
    }
}

/// The direction at a position of the canonical order.
pub open spec fn dir_at(i: int) -> Dir {
    if i == 0 {
        Dir::Front
    } else if i == 1 {
        Dir::Back
    } else if i == 2 {
        Dir::Left
    } else if i == 3 {
        Dir::Right
    } else if i == 4 {
        Dir::Top
    } else {
        Dir::Bottom
    }
}

pub open spec fn opposite_dir(d: Dir) -> Dir {
    match d {
        Dir::Front => Dir::Back,
        Dir::Back => Dir::Front,
        Dir::Left => Dir::Right,
        Dir::Right => Dir::Left,
        Dir::Top => Dir::Bottom,
        Dir::Bottom => Dir::Top,
    }
}

/// Two directions along the same axis.
pub open spec fn parallel(a: Dir, b: Dir) -> bool {
    a == b || a == opposite_dir(b)
}

/// The direction completing `a` and `b` into a corner of given spin; only
/// meaningful on non-parallel directions.
pub open spec fn prod_dir(a: Dir, b: Dir) -> Dir {
    match (a, b) {
        (Dir::Front, Dir::Left) => Dir::Bottom,
        (Dir::Front, Dir::Right) => Dir::Top,
        (Dir::Front, Dir::Top) => Dir::Left,
        (Dir::Front, Dir::Bottom) => Dir::Right,
        (Dir::Back, Dir::Left) => Dir::Top,
        (Dir::Back, Dir::Right) => Dir::Bottom,
        (Dir::Back, Dir::Top) => Dir::Right,
        (Dir::Back, Dir::Bottom) => Dir::Left,
        (Dir::Left, Dir::Front) => Dir::Top,
        (Dir::Left, Dir::Back) => Dir::Bottom,
        (Dir::Left, Dir::Top) => Dir::Back,
        (Dir::Left, Dir::Bottom) => Dir::Front,
        (Dir::Right, Dir::Front) => Dir::Bottom,
        (Dir::Right, Dir::Back) => Dir::Top,
        (Dir::Right, Dir::Top) => Dir::Front,
        (Dir::Right, Dir::Bottom) => Dir::Back,
        (Dir::Top, Dir::Front) => Dir::Right,
        (Dir::Top, Dir::Back) => Dir::Left,
        (Dir::Top, Dir::Left) => Dir::Front,
        (Dir::Top, Dir::Right) => Dir::Back,
        (Dir::Bottom, Dir::Front) => Dir::Left,
        (Dir::Bottom, Dir::Back) => Dir::Right,
        (Dir::Bottom, Dir::Left) => Dir::Back,
        (Dir::Bottom, Dir::Right) => Dir::Front,
        _ => a,
    }
}

impl Dir {
    pub fn opposite(&self) -> (r: Dir)
        ensures
            r == opposite_dir(*self),
    {
        match self {
            Dir::Front => Dir::Back,
            Dir::Back => Dir::Front,
            Dir::Left => Dir::Right,
            Dir::Right => Dir::Left,
            Dir::Top => Dir::Bottom,
            Dir::Bottom => Dir::Top,
        }
    }

    /// The spin product of two non-parallel directions.
    pub fn prod(&self, dir: Dir) -> (r: Dir)
        requires
            !parallel(*self, dir),
        ensures
            r == prod_dir(*self, dir),
            !parallel(r, *self),
            !parallel(r, dir),
    {
        match (self, dir) {
            (Dir::Front, Dir::Left) => Dir::Bottom,
            (Dir::Front, Dir::Right) => Dir::Top,
            (Dir::Front, Dir::Top) => Dir::Left,
            (Dir::Front, _) => Dir::Right,
            (Dir::Back, Dir::Left) => Dir::Top,
            (Dir::Back, Dir::Right) => Dir::Bottom,
            (Dir::Back, Dir::Top) => Dir::Right,
            (Dir::Back, _) => Dir::Left,
            (Dir::Left, Dir::Front) => Dir::Top,
            (Dir::Left, Dir::Back) => Dir::Bottom,
            (Dir::Left, Dir::Top) => Dir::Back,
            (Dir::Left, _) => Dir::Front,
            (Dir::Right, Dir::Front) => Dir::Bottom,
            (Dir::Right, Dir::Back) => Dir::Top,
            (Dir::Right, Dir::Top) => Dir::Front,
            (Dir::Right, _) => Dir::Back,
            (Dir::Top, Dir::Front) => Dir::Right,
            (Dir::Top, Dir::Back) => Dir::Left,
            (Dir::Top, Dir::Left) => Dir::Front,
            (Dir::Top, _) => Dir::Back,
            (Dir::Bottom, Dir::Front) => Dir::Left,
            (Dir::Bottom, Dir::Back) => Dir::Right,
            (Dir::Bottom, Dir::Left) => Dir::Back,
            (Dir::Bottom, _) => Dir::Front,
        }
    }

    /// Position in the canonical order Front, Back, Left, Right, Top, Bottom.
    pub fn index(&self) -> (r: usize)
        ensures
            r == dir_index(*self),
    {
        match self {
            Dir::Front => 0,
            Dir::Back => 1,
            Dir::Left => 2,
            Dir::Right => 3,
            Dir::Top => 4,
            Dir::Bottom => 5,
        }
    }

    pub fn from_index(i: usize) -> (r: Dir)
        requires
            i < 6,
        ensures
            r == dir_at(i as int),
            dir_index(r) == i,
    {
        if i == 0 {
            Dir::Front
        } else if i == 1 {
            Dir::Back
        } else if i == 2 {
            Dir::Left
        } else if i == 3 {
            Dir::Right
        } else if i == 4 {
            Dir::Top
        } else {
            Dir::Bottom
        }
    }
}

pub proof fn lemma_dir_index_bounds(d: Dir)
    ensures
        0 <= dir_index(d) < 6,
        dir_at(dir_index(d)) == d,
{
}

pub proof fn lemma_dir_at_index(i: int)
    requires
        0 <= i < 6,
    ensures
        dir_index(dir_at(i)) == i,
{
}

/// The opposite direction of the opposite direction is the direction itself.
pub proof fn lemma_opposite_involutive(d: Dir)
    ensures
        opposite_dir(opposite_dir(d)) == d,
        opposite_dir(d) != d,
{
}

/// A face of a block.
#[derive(Clone, Copy, PartialEq, Eq, Structural, Debug, Hash)]
pub struct Face {
    pub value: u8,
    pub long: u8,
    pub short: u8,
    /// index of the block of this face in the inventory
    pub block: u8,
    pub dir: Dir,
}

pub open spec fn face_area(f: Face) -> int {
    f.long * f.short
}

/// The face of inventory block `i` that looks towards `dir_at(k)`.
pub open spec fn inventory_face(i: int, k: int) -> Face {
    let dims = BLOCK_DIMS[i];
    Face {
        value: FACE_VALUES[i][k],
        long: if k < 4 {
            dims[0]
        } else {
            dims[1]
        },
        short: if k < 2 {
            dims[1]
        } else {
            dims[2]
        },
        block: i as u8,
        dir: dir_at(k),
    }
}

impl Face {
    pub fn area(&self) -> (r: u8)
        requires
            face_area(*self) <= u8::MAX,
        ensures
            r == face_area(*self),
    {
        self.long * self.short
    }

    /// The face on the other side of this face's inventory block.
    pub fn opposite(&self) -> (r: Face)
        requires
            self.block < BLOCK_COUNT,
        ensures
            r == inventory_face(self.block as int, dir_index(opposite_dir(self.dir))),
    {
        let faces = inventory_block(self.block as usize).faces;
        match self.dir {
            Dir::Front => faces[1],
            Dir::Back => faces[0],
            Dir::Left => faces[3],
            Dir::Right => faces[2],
            Dir::Top => faces[5],
            Dir::Bottom => faces[4],
        }
    }
}

/// Faces listed in the canonical order Front, Back, Left, Right, Top, Bottom.
pub open spec fn canonical(faces: Seq<Face>) -> bool {
    &&& faces.len() == 6
    &&& forall|k: int| 0 <= k < 6 ==> (#[trigger] faces[k]).dir == dir_at(k)
}

/// A block of the puzzle.
#[derive(Clone, Copy, PartialEq, Eq, Debug, Hash)]
pub struct Block {
    pub height: u8,
    pub width: u8,
    pub depth: u8,
    /// order: Front, Back, Left, Right, Top, Bottom
    pub faces: [Face; 6],
    pub label: &'static str,
}

/// A block seen as its dimensions, its face sequence and its label.
pub struct BlockView {
    pub height: u8,
    pub width: u8,
    pub depth: u8,
    pub faces: Seq<Face>,
    pub label: &'static str,
}

impl View for Block {
    type V = BlockView;

    open spec fn view(&self) -> BlockView {
        BlockView {
            height: self.height,
            width: self.width,
            depth: self.depth,
            faces: self.faces@,
            label: self.label,
        }
    }
}

impl BlockView {
    pub open spec fn wf(self) -> bool {
        canonical(self.faces)
    }
}

impl Block {
    pub open spec fn wf(&self) -> bool {
        canonical(self.faces@)
    }
}

/// Block `i` of the inventory, as a view.
pub open spec fn inventory_block_view(i: int) -> BlockView {
    BlockView {
        height: BLOCK_DIMS[i][0],
        width: BLOCK_DIMS[i][1],
        depth: BLOCK_DIMS[i][2],
        faces: Seq::new(6, |k: int| inventory_face(i, k)),
        label: BLOCK_LABELS[i],
    }
}

/// Block `i` of the inventory.
pub open spec fn is_inventory_block(i: int, b: Block) -> bool {
    &&& b.height == BLOCK_DIMS[i][0]
    &&& b.width == BLOCK_DIMS[i][1]
    &&& b.depth == BLOCK_DIMS[i][2]
    &&& b.label == BLOCK_LABELS[i]
    &&& forall|k: int| 0 <= k < 6 ==> #[trigger] b.faces[k] == inventory_face(i, k)
}

fn inventory_face_at(i: usize, k: usize) -> (r: Face)
    requires
        i < BLOCK_COUNT,
        k < 6,
    ensures
        r == inventory_face(i as int, k as int),
{
    let dims = BLOCK_DIMS[i];
    let long = if k < 4 {
        dims[0]
    } else {
        dims[1]
    };
    let short = if k < 2 {
        dims[1]
    } else {
        dims[2]
    };
    Face { value: FACE_VALUES[i][k], long, short, block: i as u8, dir: Dir::from_index(k) }
}

/// Block `i` of the inventory of nine blocks.
pub fn inventory_block(i: usize) -> (r: Block)
    requires
        i < BLOCK_COUNT,
    ensures
        is_inventory_block(i as int, r),
        r@ == inventory_block_view(i as int),
        r.wf(),
        1 <= r.height && 1 <= r.width && 1 <= r.depth,
{
    let dims = BLOCK_DIMS[i];
    let r = Block {
        height: dims[0],
        width: dims[1],
        depth: dims[2],
        faces: [
            inventory_face_at(i, 0),
            inventory_face_at(i, 1),
            inventory_face_at(i, 2),
            inventory_face_at(i, 3),
            inventory_face_at(i, 4),
            inventory_face_at(i, 5),
        ],
        label: BLOCK_LABELS[i],
    };
    assert(forall|k: int| 0 <= k < 6 ==> r.faces[k] == inventory_face(i as int, k));
    assert(r.faces@ =~= inventory_block_view(i as int).faces);
    assert(1 <= r.height && 1 <= r.width && 1 <= r.depth) by {
        assert(i == 0 || i == 1 || i == 2 || i == 3 || i == 4 || i == 5 || i == 6 || i == 7 || i
            == 8);
    }
    r
}

/// The nine blocks of the puzzle, in inventory order.
pub fn inventory() -> (r: Vec<Block>)
    ensures
        r@.len() == BLOCK_COUNT,
        forall|i: int| 0 <= i < BLOCK_COUNT ==> #[trigger] is_inventory_block(i, r@[i]),
        forall|i: int| 0 <= i < BLOCK_COUNT ==> (#[trigger] r@[i]).wf(),
        forall|i: int| 0 <= i < BLOCK_COUNT ==> (#[trigger] r@[i])@ == inventory_block_view(i),
        forall|i: int|
            0 <= i < BLOCK_COUNT ==> 1 <= (#[trigger] r@[i]).height && 1 <= r@[i].width && 1
                <= r@[i].depth,
{
    let mut r: Vec<Block> = Vec::new();
    let mut i: usize = 0;
    while i < BLOCK_COUNT
        invariant
            i <= BLOCK_COUNT,
            r@.len() == i,
            forall|j: int| 0 <= j < i ==> #[trigger] is_inventory_block(j, r@[j]),
            forall|j: int| 0 <= j < i ==> (#[trigger] r@[j]).wf(),
            forall|j: int| 0 <= j < i ==> (#[trigger] r@[j])@ == inventory_block_view(j),
            forall|j: int|
                0 <= j < i ==> 1 <= (#[trigger] r@[j]).height && 1 <= r@[j].width && 1
                    <= r@[j].depth,
        decreases BLOCK_COUNT - i,
    {
        r.push(inventory_block(i));
        i += 1;
    }
    r
}

} // verus!
