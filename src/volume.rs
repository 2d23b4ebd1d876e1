use crate::common::{face_area, Block, Face, BLOCK_COUNT, DEPTH, HEIGHT, TARGET_SUM, WIDTH};
use crate::rotation::{all_rots, shape_rots};
use crate::search::{
    lemma_rank_bound, lemma_rank_push, lemma_rank_sideways, rank, tree_size, valid_path,
};
use std::collections::HashSet;
use vstd::prelude::*;

verus! {

broadcast use vstd::std_specs::hash::group_hash_axioms;

/// A block placed in the puzzle.
#[derive(Clone, Copy, PartialEq, Eq, Structural, Debug, Hash)]
pub struct BlockInPuzzle {
    /// index of the block in the list of rotated blocks
    pub block_id: usize,
    /// index of the rotation within the block's rotations
    pub rot_id: usize,
    /// cell of the block's low corner
    pub position: usize,
}

/// What stays fixed during a search: the puzzle's dimensions (cells along
/// x, y and z) and the rotations of each block.
///
/// Cells are numbered with x running fastest, then y, then z:
/// cell `c` has coordinates `x_of(c)`, `y_of(c)`, `z_of(c)`.
pub struct Puzzle {
    pub h: int,
    pub w: int,
    pub d: int,
    pub blocks: Seq<Seq<Block>>,
}

/// Length of the longest list of `s`.
pub open spec fn max_len(s: Seq<Seq<Block>>) -> nat
    decreases s.len(),
{
    if s.len() == 0 {
        0
    } else {
        let m = max_len(s.drop_last());
        if s.last().len() > m {
            s.last().len()
        } else {
            m
        }
    }
}

proof fn lemma_max_len(s: Seq<Seq<Block>>, i: int)
    requires
        0 <= i < s.len(),
    ensures
        s[i].len() <= max_len(s),
    decreases s.len(),
{
    if i < s.len() - 1 {
        lemma_max_len(s.drop_last(), i);
    }
}

/// The placed blocks of `s`, as seen by a rendering: each cell taken by a
/// block maps to it.
pub open spec fn snapshot(state: Seq<Option<BlockInPuzzle>>) -> Seq<BlockInPuzzle> {
    state.map_values(|o: Option<BlockInPuzzle>| o->Some_0)
}

impl Puzzle {
    pub open spec fn volume(self) -> int {
        self.h * self.w * self.d
    }

    pub open spec fn x_of(self, c: int) -> int {
        c % self.h
    }

    pub open spec fn y_of(self, c: int) -> int {
        (c % (self.h * self.w)) / self.h
    }

    pub open spec fn z_of(self, c: int) -> int {
        c / (self.h * self.w)
    }

    pub open spec fn valid_ids(self, e: BlockInPuzzle) -> bool {
        &&& e.block_id < self.blocks.len()
        &&& e.rot_id < self.blocks[e.block_id as int].len()
    }

    pub open spec fn block(self, e: BlockInPuzzle) -> Block {
        self.blocks[e.block_id as int][e.rot_id as int]
    }

    /// The block lies inside the puzzle.
    pub open spec fn in_bounds(self, e: BlockInPuzzle) -> bool {
        let b = self.block(e);
        let p = e.position as int;
        &&& p < self.volume()
        &&& self.x_of(p) + b.height <= self.h
        &&& self.y_of(p) + b.width <= self.w
        &&& self.z_of(p) + b.depth <= self.d
    }

    /// Cell `c` lies inside the block placed as `e`.
    pub open spec fn covers(self, e: BlockInPuzzle, c: int) -> bool {
        let b = self.block(e);
        let p = e.position as int;
        &&& 0 <= c < self.volume()
        &&& self.x_of(p) <= self.x_of(c) < self.x_of(p) + b.height
        &&& self.y_of(p) <= self.y_of(c) < self.y_of(p) + b.width
        &&& self.z_of(p) <= self.z_of(c) < self.z_of(p) + b.depth
    }

    /// The block placed as `e` reaches the outer face `dir_at(k)`.
    pub open spec fn touches(self, e: BlockInPuzzle, k: int) -> bool {
        let b = self.block(e);
        let p = e.position as int;
        if k == 0 {
            self.z_of(p) == 0
        } else if k == 1 {
            self.z_of(p) + b.depth == self.d
        } else if k == 2 {
            self.y_of(p) == 0
        } else if k == 3 {
            self.y_of(p) + b.width == self.w
        } else if k == 4 {
            self.x_of(p) + b.height == self.h
        } else {
            self.x_of(p) == 0
        }
    }

    /// Cell `c` lies on the outer face `dir_at(k)`.
    pub open spec fn on_face(self, k: int, c: int) -> bool {
        if k == 0 {
            self.z_of(c) == 0
        } else if k == 1 {
            self.z_of(c) == self.d - 1
        } else if k == 2 {
            self.y_of(c) == 0
        } else if k == 3 {
            self.y_of(c) == self.w - 1
        } else if k == 4 {
            self.x_of(c) == self.h - 1
        } else {
            self.x_of(c) == 0
        }
    }

    /// Area of the outer face `dir_at(k)`.
    pub open spec fn face_total(self, k: int) -> int {
        if k < 2 {
            self.h * self.w
        } else if k < 4 {
            self.h * self.d
        } else {
            self.w * self.d
        }
    }

    pub open spec fn face_value(self, e: BlockInPuzzle, k: int) -> int {
        self.block(e).faces[k].value as int
    }

    pub open spec fn face_area(self, e: BlockInPuzzle, k: int) -> int {
        face_area(self.block(e).faces[k])
    }

    /// Sum of the values that the placed blocks `s` show on the outer face
    /// `dir_at(k)`.
    pub open spec fn value_sum(self, s: Seq<BlockInPuzzle>, k: int) -> int
        decreases s.len(),
    {
        if s.len() == 0 {
            0
        } else {
            self.value_sum(s.drop_last(), k) + if self.touches(s.last(), k) {
                self.face_value(s.last(), k)
            } else {
                0
            }
        }
    }

    /// Area that the placed blocks `s` cover on the outer face `dir_at(k)`.
    pub open spec fn area_sum(self, s: Seq<BlockInPuzzle>, k: int) -> int
        decreases s.len(),
    {
        if s.len() == 0 {
            0
        } else {
            self.area_sum(s.drop_last(), k) + if self.touches(s.last(), k) {
                self.face_area(s.last(), k)
            } else {
                0
            }
        }
    }

    /// `state` with every cell of the block placed as `e` set to `v`.
    pub open spec fn painted(
        self,
        state: Seq<Option<BlockInPuzzle>>,
        e: BlockInPuzzle,
        v: Option<BlockInPuzzle>,
    ) -> Seq<Option<BlockInPuzzle>> {
        Seq::new(state.len(), |c: int| if self.covers(e, c) { v } else { state[c] })
    }

    /// The cells with the placed blocks `s` written in, in order, from an
    /// empty puzzle.
    pub open spec fn cells_of(self, s: Seq<BlockInPuzzle>) -> Seq<Option<BlockInPuzzle>>
        decreases s.len(),
    {
        if s.len() == 0 {
            Seq::new(self.volume() as nat, |c: int| None::<BlockInPuzzle>)
        } else {
            self.painted(self.cells_of(s.drop_last()), s.last(), Some(s.last()))
        }
    }

    /// `sol` lists, for every cell, a placed block whose box covers it: the
    /// blocks lie inside the puzzle, and a block id names one placement only.
    pub open spec fn is_packing(self, sol: Seq<BlockInPuzzle>) -> bool {
        &&& sol.len() == self.volume()
        &&& forall|c: int|
            0 <= c < sol.len() ==> {
                &&& self.valid_ids(#[trigger] sol[c])
                &&& self.in_bounds(sol[c])
                &&& self.covers(sol[c], c)
            }
        &&& forall|c1: int, c2: int|
            0 <= c1 < sol.len() && 0 <= c2 < sol.len() && (#[trigger] sol[c1]).block_id == (
            #[trigger] sol[c2]).block_id ==> sol[c1] == sol[c2]
    }

    /// Bound on the number of rotations of a block.
    pub open spec fn rot_bound(self) -> nat {
        max_len(self.blocks)
    }

    /// The choice a placement stands for, as a code below `choice_count`.
    pub open spec fn code(self, e: BlockInPuzzle) -> nat {
        (e.block_id * self.rot_bound() + e.rot_id) as nat
    }

    pub open spec fn choice_count(self) -> nat {
        (self.blocks.len() * self.rot_bound()) as nat
    }

    pub open spec fn codes(self, s: Seq<BlockInPuzzle>) -> Seq<nat> {
        s.map_values(|e: BlockInPuzzle| self.code(e))
    }

    /// Preorder rank of the placements `s` in the search tree.
    pub open spec fn search_rank(self, s: Seq<BlockInPuzzle>) -> int {
        rank(self.codes(s), self.choice_count(), self.blocks.len())
    }

    /// Size of the search tree, above every rank.
    pub open spec fn search_size(self) -> int {
        tree_size(self.choice_count(), self.blocks.len()) as int
    }
}

/// The stepwise volumetric solver.
pub struct Solver {
    pub puzzle_height: usize,
    pub puzzle_width: usize,
    pub puzzle_depth: usize,
    /// the sum each outer face must reach; none for a purely geometric search
    pub target: Option<u8>,
    /// the rotations of each block
    pub rot_blocks: Vec<Vec<Block>>,
    /// the placed blocks, in placement order
    pub stack: Vec<BlockInPuzzle>,
    /// ids of the blocks still to be placed
    pub rem: HashSet<usize>,
    /// the cell where the next block goes: the lowest empty cell
    pub position: usize,
    /// for each cell, the placed block that fills it
    pub state: Vec<Option<BlockInPuzzle>>,
    /// for each outer face, the sum of the values shown on it so far
    pub face_sums: [i128; 6],
    /// for each outer face, the area not covered yet
    pub face_free_areas: [i128; 6],
    pub done: bool,
    /// whether the first placement is limited to the first quarter of its
    /// block's rotations, which skips the rotations of the whole puzzle
    pub first_block_quarter: bool,
    /// the complete placements found, each once
    pub solutions: Vec<Vec<BlockInPuzzle>>,
}

impl Solver {
    pub open spec fn puzzle(&self) -> Puzzle {
        Puzzle {
            h: self.puzzle_height as int,
            w: self.puzzle_width as int,
            d: self.puzzle_depth as int,
            blocks: self.rot_blocks@.map_values(|v: Vec<Block>| v@),
        }
    }

    pub open spec fn block_count_spec(&self) -> int {
        self.rot_blocks@.len() as int
    }

    /// The fixed part of two solver states agree.
    pub open spec fn same_puzzle(&self, other: &Solver) -> bool {
        &&& self.puzzle_height == other.puzzle_height
        &&& self.puzzle_width == other.puzzle_width
        &&& self.puzzle_depth == other.puzzle_depth
        &&& self.target == other.target
        &&& self.rot_blocks@ == other.rot_blocks@
        &&& self.first_block_quarter == other.first_block_quarter
    }

    /// What placing `e` adds to the sum of the outer face `dir_at(k)`.
    pub open spec fn ledger_value(&self, e: BlockInPuzzle, k: int) -> int {
        if self.puzzle().touches(e, k) {
            self.puzzle().face_value(e, k)
        } else {
            0
        }
    }

    /// What placing `e` takes from the free area of the outer face `dir_at(k)`.
    pub open spec fn ledger_area(&self, e: BlockInPuzzle, k: int) -> int {
        if self.puzzle().touches(e, k) {
            self.puzzle().face_area(e, k)
        } else {
            0
        }
    }

    /// With `e` placed, every cell of the outer face `dir_at(k)` is filled.
    pub open spec fn completes_face(&self, e: BlockInPuzzle, k: int) -> bool {
        let p = self.puzzle();
        forall|c: int|
            0 <= c < p.volume() && #[trigger] p.on_face(k, c) ==> if p.covers(e, c) {
                self.state@[c] is None
            } else {
                self.state@[c] is Some
            }
    }

    /// The labeled check of the outer face `dir_at(k)` for placing `e`: the
    /// new sum must not pass the target; reaching it, the face must be
    /// complete; below it, some free area must be left.
    pub open spec fn face_ok(&self, e: BlockInPuzzle, k: int, t: int) -> bool {
        let p = self.puzzle();
        let new_sum = self.face_sums@[k] + p.face_value(e, k);
        let free = self.face_free_areas@[k] as int;
        p.touches(e, k) ==> {
            &&& new_sum <= t
            &&& new_sum == t ==> self.completes_face(e, k)
            &&& new_sum < t ==> free != p.face_area(e, k)
        }
    }

    /// Placing `e` keeps the ledgers of the outer face `dir_at(k)` within
    /// their integer type.
    pub open spec fn ledger_room(&self, e: BlockInPuzzle, k: int) -> bool {
        &&& self.face_sums@[k] + self.ledger_value(e, k) <= i128::MAX
        &&& self.face_free_areas@[k] - self.ledger_area(e, k) >= i128::MIN
    }

    pub open spec fn box_empty(&self, e: BlockInPuzzle) -> bool {
        forall|c: int| #[trigger] self.puzzle().covers(e, c) ==> self.state@[c] is None
    }

    /// The block placed as `e` can go in.
    pub open spec fn fits(&self, e: BlockInPuzzle) -> bool {
        &&& self.puzzle().valid_ids(e)
        &&& self.puzzle().in_bounds(e)
        &&& (self.target matches Some(t) ==> forall|k: int|
            0 <= k < 6 ==> #[trigger] self.face_ok(e, k, t as int))
        &&& self.box_empty(e)
    }

    /// `pos` is the lowest empty cell of `state` at or after `from`, or the
    /// volume when there is none.
    pub open spec fn first_empty_from(
        state: Seq<Option<BlockInPuzzle>>,
        from: int,
        pos: int,
    ) -> bool {
        &&& from <= pos <= state.len()
        &&& forall|c: int| from <= c < pos ==> state[c] is Some
        &&& pos < state.len() ==> state[pos] is None
    }

    /// `s1` is `s0` with the block placed as `e` added: cells, stack, the
    /// remaining blocks, the face ledgers and the next position.
    pub open spec fn placement_step(s0: &Solver, e: BlockInPuzzle, s1: &Solver) -> bool {
        &&& s1.same_puzzle(s0)
        &&& s1.state@ == s0.puzzle().painted(s0.state@, e, Some(e))
        &&& s1.stack@ == s0.stack@.push(e)
        &&& s1.rem@ == s0.rem@.remove(e.block_id)
        &&& forall|k: int|
            0 <= k < 6 ==> #[trigger] s1.face_sums@[k] == s0.face_sums@[k] + s0.ledger_value(e, k)
        &&& forall|k: int|
            0 <= k < 6 ==> #[trigger] s1.face_free_areas@[k] == s0.face_free_areas@[k]
                - s0.ledger_area(e, k)
        &&& Self::first_empty_from(s1.state@, s0.position as int, s1.position as int)
        &&& s1.done == s0.done
    }

    /// `s1` is `s0` with its last placed block taken off again.
    pub open spec fn removal_step(s0: &Solver, s1: &Solver) -> bool {
        let e = s0.stack@.last();
        &&& s1.same_puzzle(s0)
        &&& s1.state@ == s0.puzzle().painted(s0.state@, e, None)
        &&& s1.stack@ == s0.stack@.drop_last()
        &&& s1.rem@ == s0.rem@.insert(e.block_id)
        &&& forall|k: int|
            0 <= k < 6 ==> #[trigger] s1.face_sums@[k] == s0.face_sums@[k] - s1.ledger_value(e, k)
        &&& forall|k: int|
            0 <= k < 6 ==> #[trigger] s1.face_free_areas@[k] == s0.face_free_areas@[k]
                + s1.ledger_area(e, k)
        &&& s1.position == e.position
        &&& s1.done == s0.done
        &&& s1.solutions@ == s0.solutions@
    }

    pub open spec fn has_solution(&self, s: Seq<BlockInPuzzle>) -> bool {
        exists|i: int| 0 <= i < self.solutions@.len() && (#[trigger] self.solutions@[i])@ == s
    }

    pub open spec fn search_rank(&self) -> int {
        self.puzzle().search_rank(self.stack@)
    }

    /// A search not started yet: nothing placed, every block remaining, every
    /// cell empty, the face sums at zero and the free areas whole.
    pub open spec fn is_empty_start(&self) -> bool {
        &&& self.stack@.len() == 0
        &&& self.rem@ == Set::new(|b: usize| b < self.rot_blocks@.len())
        &&& self.position == 0
        &&& forall|c: int| 0 <= c < self.state@.len() ==> #[trigger] self.state@[c] is None
        &&& forall|k: int|
            0 <= k < 6 ==> #[trigger] self.face_sums@[k] == 0 && self.face_free_areas@[k]
                == self.puzzle().face_total(k)
        &&& !self.done
        &&& self.solutions@.len() == 0
    }

    /// Rotation `rot` of the remaining block `b` fits at the next position.
    pub open spec fn deeper_candidate(&self, b: int, rot: int) -> bool {
        &&& 0 <= b < self.rot_blocks@.len()
        &&& 0 <= rot < self.rot_blocks@[b]@.len()
        &&& self.rem@.contains(b as usize)
        &&& self.fits(BlockInPuzzle { block_id: b as usize, rot_id: rot as usize, position: self.position })
    }

    /// The rotations of block `b` that the next placement may take: with
    /// `first_block_quarter`, the first placement takes only the first
    /// quarter of the list.
    pub open spec fn rot_limit(&self, b: int) -> int {
        if self.first_block_quarter && self.stack@.len() == 0 {
            self.rot_blocks@[b]@.len() as int / 4
        } else {
            self.rot_blocks@[b]@.len() as int
        }
    }

    /// Once the placement `t` is taken off, rotation `rot` of block `b` may
    /// replace it: a later rotation of the same block, or any rotation of a
    /// higher block still to place, that fits at the freed position.
    pub open spec fn sideways_candidate(&self, t: BlockInPuzzle, b: int, rot: int) -> bool {
        &&& 0 <= b < self.rot_blocks@.len()
        &&& 0 <= rot < self.rot_limit(b)
        &&& ((b == t.block_id && rot > t.rot_id) || (b > t.block_id && self.rem@.contains(
            b as usize,
        )))
        &&& self.fits(BlockInPuzzle { block_id: b as usize, rot_id: rot as usize, position: self.position })
    }

    /// (b2, r2) comes before (b, rot) in the order of the search.
    pub open spec fn tried_before(b2: int, r2: int, b: int, rot: int) -> bool {
        b2 < b || (b2 == b && r2 < rot)
    }

    pub open spec fn geometry_ok(&self) -> bool {
        let p = self.puzzle();
        &&& 1 <= p.h && 1 <= p.w && 1 <= p.d
        &&& p.volume() <= usize::MAX
        &&& self.state@.len() == p.volume()
    }

    /// Block `b` is on the stack.
    pub open spec fn placed_block(&self, b: usize) -> bool {
        exists|i: int| 0 <= i < self.stack@.len() && (#[trigger] self.stack@[i]).block_id == b
    }

    /// The search invariant.
    pub open spec fn wf(&self) -> bool {
        let p = self.puzzle();
        let n = self.stack@.len();
        &&& self.geometry_ok()
        &&& forall|b: int, r: int|
            0 <= b < p.blocks.len() && 0 <= r < p.blocks[b].len() ==> {
                &&& 1 <= (#[trigger] p.blocks[b][r]).height
                &&& 1 <= p.blocks[b][r].width
                &&& 1 <= p.blocks[b][r].depth
            }
        // the next position is the lowest empty cell
        &&& self.position <= p.volume()
        &&& forall|c: int| 0 <= c < self.position ==> #[trigger] self.state@[c] is Some
        &&& self.position < p.volume() ==> self.state@[self.position as int] is None
        // every block is either placed or remaining
        &&& self.rem@.finite()
        &&& forall|b: usize| #[trigger] self.rem@.contains(b) ==> b < self.block_count_spec()
        &&& forall|i: int| 0 <= i < n ==> !self.rem@.contains(#[trigger] self.stack@[i].block_id)
        &&& forall|i: int, j: int|
            0 <= i < j < n ==> (#[trigger] self.stack@[i]).block_id != (
            #[trigger] self.stack@[j]).block_id
        &&& self.rem@.len() + n == self.block_count_spec()
        &&& forall|b: usize|
            b < self.block_count_spec() ==> #[trigger] self.rem@.contains(b) || self.placed_block(b)
        // the placed blocks
        &&& forall|i: int|
            0 <= i < n ==> {
                &&& p.valid_ids(#[trigger] self.stack@[i])
                &&& p.in_bounds(self.stack@[i])
                &&& self.stack@[i].position <= self.position
            }
        &&& forall|i: int, j: int|
            0 <= i <= j < n ==> (#[trigger] self.stack@[i]).position
                <= (#[trigger] self.stack@[j]).position
        &&& forall|i: int, c: int|
            0 <= i < n && 0 <= c < (#[trigger] self.stack@[i]).position ==> (
            #[trigger] self.state@[c]) is Some
        &&& self.done ==> n == 0
        // the cells are the placed blocks' boxes, each written over empty
        // cells
        &&& self.state@ == p.cells_of(self.stack@)
        &&& forall|i: int, c: int|
            0 <= i < n && #[trigger] p.covers(self.stack@[i], c) ==> p.cells_of(
                self.stack@.take(i),
            )[c] is None
        // every filled cell names one of the blocks' rotations
        &&& forall|c: int|
            0 <= c < p.volume() ==> (#[trigger] self.state@[c] matches Some(e) ==> p.valid_ids(e))
        &&& forall|i: int|
            0 <= i < self.solutions@.len() ==> p.is_packing((#[trigger] self.solutions@[i])@)
        // the face ledgers, and the sums within the target
        &&& forall|k: int|
            0 <= k < 6 ==> {
                &&& #[trigger] self.face_sums@[k] == p.value_sum(self.stack@, k)
                &&& self.face_free_areas@[k] + p.area_sum(self.stack@, k) == p.face_total(k)
            }
        &&& (self.target matches Some(t) ==> forall|k: int|
            0 <= k < 6 ==> #[trigger] self.face_sums@[k] <= t)
        // the solutions, each once
        &&& forall|i: int, j: int|
            0 <= i < j < self.solutions@.len() ==> (#[trigger] self.solutions@[i])@ != (
            #[trigger] self.solutions@[j])@
    }
}

// Arithmetic on cell numbers.
proof fn lemma_slice_fits(h: int, w: int, d: int)
    requires
        1 <= h,
        1 <= w,
        1 <= d,
    ensures
        h <= h * w,
        w <= h * w,
        h * w <= h * w * d,
        h * d <= h * w * d,
        w * d <= h * w * d,
{
    assert(h <= h * w) by (nonlinear_arith)
        requires
            1 <= w,
            1 <= h,
    ;
    assert(w <= h * w) by (nonlinear_arith)
        requires
            1 <= w,
            1 <= h,
    ;
    assert(h * w <= h * w * d) by (nonlinear_arith)
        requires
            1 <= w,
            1 <= h,
            1 <= d,
    ;
    assert(h * d <= h * w * d) by (nonlinear_arith)
        requires
            1 <= w,
            1 <= h,
            1 <= d,
    ;
    assert(w * d <= h * w * d) by (nonlinear_arith)
        requires
            1 <= w,
            1 <= h,
            1 <= d,
    ;
}

/// The coordinates of a cell lie inside the puzzle, and give back the cell.
proof fn lemma_coords(p: Puzzle, c: int)
    requires
        1 <= p.h,
        1 <= p.w,
        1 <= p.d,
        0 <= c < p.volume(),
    ensures
        0 <= p.x_of(c) < p.h,
        0 <= p.y_of(c) < p.w,
        0 <= p.z_of(c) < p.d,
        c == p.z_of(c) * (p.h * p.w) + p.y_of(c) * p.h + p.x_of(c),
{
    let h = p.h;
    let w = p.w;
    let d = p.d;
    let hw = h * w;
    assert(hw >= 1) by (nonlinear_arith)
        requires
            hw == h * w,
            1 <= h,
            1 <= w,
    ;
    vstd::arithmetic::div_mod::lemma_fundamental_div_mod(c, hw);
    vstd::arithmetic::div_mod::lemma_mod_bound(c, hw);
    let r = c % hw;
    vstd::arithmetic::div_mod::lemma_fundamental_div_mod(r, h);
    vstd::arithmetic::div_mod::lemma_mod_bound(r, h);
    vstd::arithmetic::div_mod::lemma_mod_bound(c, h);
    vstd::arithmetic::div_mod::lemma_mod_mod(c, h, w);
    vstd::arithmetic::div_mod::lemma_div_pos_is_pos(r, h);
    vstd::arithmetic::div_mod::lemma_div_pos_is_pos(c, hw);
    let q = r / h;
    assert(q < w) by (nonlinear_arith)
        requires
            r == h * q + r % h,
            0 <= r % h,
            r < hw,
            hw == h * w,
            h >= 1,
    ;
    let z = c / hw;
    assert(z < d) by (nonlinear_arith)
        requires
            c == hw * z + r,
            0 <= r,
            c < hw * d,
            hw >= 1,
    ;
    assert(p.volume() == hw * d) by (nonlinear_arith)
        requires
            hw == h * w,
            p.volume() == h * w * d,
    ;
    assert(c == z * hw + q * h + c % h) by (nonlinear_arith)
        requires
            c == hw * z + r,
            r == h * q + r % h,
            r % h == c % h,
    ;
}

proof fn lemma_cells_len(p: Puzzle, s: Seq<BlockInPuzzle>)
    requires
        p.volume() >= 0,
    ensures
        p.cells_of(s).len() == p.volume(),
    decreases s.len(),
{
    if s.len() > 0 {
        lemma_cells_len(p, s.drop_last());
    }
}

/// A filled cell holds a placed block whose box covers it; an empty cell
/// lies in no placed block's box.
pub proof fn lemma_cells_of(p: Puzzle, s: Seq<BlockInPuzzle>, c: int)
    requires
        p.volume() >= 0,
        0 <= c < p.volume(),
    ensures
        p.cells_of(s)[c] matches Some(e) ==> exists|i: int|
            0 <= i < s.len() && s[i] == e && #[trigger] p.covers(s[i], c),
        p.cells_of(s)[c] is None ==> forall|i: int| 0 <= i < s.len() ==> !#[trigger] p.covers(s[i], c),
    decreases s.len(),
{
    lemma_cells_len(p, s);
    if s.len() > 0 {
        let t = s.drop_last();
        lemma_cells_of(p, t, c);
        lemma_cells_len(p, t);
        if !p.covers(s.last(), c) {
            if let Some(e) = p.cells_of(s)[c] {
                let i = choose|i: int| 0 <= i < t.len() && t[i] == e && #[trigger] p.covers(t[i], c);
                assert(s[i] == t[i]);
            } else {
                assert forall|i: int| 0 <= i < s.len() implies !#[trigger] p.covers(s[i], c) by {
                    if i < t.len() {
                        assert(s[i] == t[i]);
                    }
                }
            }
        } else {
            assert(s[s.len() - 1] == s.last());
        }
    }
}

/// The cells of a block come at or after its low corner.
proof fn lemma_covered_after_corner(p: Puzzle, e: BlockInPuzzle, c: int)
    requires
        1 <= p.h,
        1 <= p.w,
        1 <= p.d,
        p.in_bounds(e),
        p.covers(e, c),
    ensures
        c >= e.position,
{
    let q = e.position as int;
    lemma_coords(p, q);
    lemma_coords(p, c);
    let h = p.h;
    let hw = p.h * p.w;
    let (x0, y0, z0) = (p.x_of(q), p.y_of(q), p.z_of(q));
    let (x, y, z) = (p.x_of(c), p.y_of(c), p.z_of(c));
    assert(y0 * h + x0 < hw) by (nonlinear_arith)
        requires
            0 <= x0 < h,
            0 <= y0 < p.w,
            hw == h * p.w,
    ;
    assert(x0 < h);
    assert(z * hw + y * h + x >= z0 * hw + y0 * h + x0) by (nonlinear_arith)
        requires
            z >= z0,
            y >= y0,
            x >= x0,
            hw >= 0,
            h >= 0,
            y0 * h + x0 < hw,
            z > z0 || (y > y0 || x >= x0),
            x0 < h,
    ;
}

/// The low corner of a placed block is one of its cells.
proof fn lemma_corner_covered(p: Puzzle, e: BlockInPuzzle)
    requires
        1 <= p.h,
        1 <= p.w,
        1 <= p.d,
        p.in_bounds(e),
        1 <= p.block(e).height,
        1 <= p.block(e).width,
        1 <= p.block(e).depth,
    ensures
        p.covers(e, e.position as int),
{
}

/// Placing a block and taking it off again gives back the cells, the face
/// ledgers, the remaining blocks, the stack and the next position exactly as
/// they were.
pub proof fn lemma_place_remove_round_trip(s0: &Solver, e: BlockInPuzzle, s1: &Solver, s2: &Solver)
    requires
        s0.wf(),
        e.position == s0.position,
        s0.rem@.contains(e.block_id),
        s0.fits(e),
        Solver::placement_step(s0, e, s1),
        Solver::removal_step(s1, s2),
    ensures
        s2.state@ == s0.state@,
        s2.face_sums@ == s0.face_sums@,
        s2.face_free_areas@ == s0.face_free_areas@,
        s2.position == s0.position,
        s2.stack@ == s0.stack@,
        s2.rem@ == s0.rem@,
{
    let p = s0.puzzle();
    assert(s1.puzzle() == p);
    assert(s1.stack@.last() == e);
    assert(s2.state@ =~= s0.state@);
    assert(s2.face_sums@ =~= s0.face_sums@);
    assert(s2.face_free_areas@ =~= s0.face_free_areas@);
    assert(s2.stack@ =~= s0.stack@);
    assert(s2.rem@ =~= s0.rem@);
}

/// Keeping the search invariant across a placement.
proof fn lemma_placement_keeps_wf(s0: Solver, e: BlockInPuzzle, s1: Solver)
    requires
        s0.wf(),
        !s0.done,
        e.position == s0.position,
        s0.rem@.contains(e.block_id),
        s0.fits(e),
        Solver::placement_step(&s0, e, &s1),
        forall|i: int, j: int|
            0 <= i < j < s1.solutions@.len() ==> (#[trigger] s1.solutions@[i])@ != (
            #[trigger] s1.solutions@[j])@,
        forall|i: int|
            0 <= i < s1.solutions@.len() ==> (i < s0.solutions@.len() && (
            #[trigger] s1.solutions@[i]) == s0.solutions@[i]) || (s1.solutions@[i]@ == snapshot(
                s1.state@,
            ) && s1.position == s1.state@.len()),
    ensures
        s1.wf(),
{
    let p = s0.puzzle();
    assert(s1.puzzle() == p);
    let n = s0.stack@.len();
    assert(s1.stack@.drop_last() =~= s0.stack@);
    assert(s1.stack@[n as int] == e);
    assert forall|c: int| 0 <= c < s1.position implies #[trigger] s1.state@[c] is Some by {
        if c < s0.position {
            assert(s0.state@[c] is Some);
        }
    }
    assert forall|i: int, c: int|
        0 <= i < n + 1 && 0 <= c < (#[trigger] s1.stack@[i]).position implies (
        #[trigger] s1.state@[c]) is Some by {
        if i < n {
            assert(s0.stack@[i] == s1.stack@[i]);
            assert(s0.state@[c] is Some);
        } else {
            assert(s0.state@[c] is Some);
        }
    }
    assert forall|i: int| 0 <= i < n + 1 implies !s1.rem@.contains(
        #[trigger] s1.stack@[i].block_id,
    ) by {
        if i < n {
            assert(s0.stack@[i] == s1.stack@[i]);
        }
    }
    assert forall|i: int, j: int|
        0 <= i < j < n + 1 implies (#[trigger] s1.stack@[i]).block_id != (
        #[trigger] s1.stack@[j]).block_id by {
        assert(s0.stack@[i] == s1.stack@[i]);
        if j < n {
            assert(s0.stack@[j] == s1.stack@[j]);
        } else {
            assert(!s0.rem@.contains(s0.stack@[i].block_id));
        }
    }
    assert forall|i: int| 0 <= i < n + 1 implies {
        &&& p.valid_ids(#[trigger] s1.stack@[i])
        &&& p.in_bounds(s1.stack@[i])
        &&& s1.stack@[i].position <= s1.position
    } by {
        if i < n {
            assert(s0.stack@[i] == s1.stack@[i]);
        }
    }
    assert forall|i: int, j: int|
        0 <= i <= j < n + 1 implies (#[trigger] s1.stack@[i]).position <= (
        #[trigger] s1.stack@[j]).position by {
        if i < n {
            assert(s0.stack@[i] == s1.stack@[i]);
        }
        if j < n {
            assert(s0.stack@[j] == s1.stack@[j]);
        }
    }
    assert(s1.rem@.len() + s1.stack@.len() == s1.block_count_spec());
    assert(s1.stack@.drop_last() =~= s0.stack@);
    assert(s1.state@ == p.cells_of(s1.stack@));
    assert forall|i: int, c: int|
        0 <= i < n + 1 && #[trigger] p.covers(s1.stack@[i], c) implies p.cells_of(
        s1.stack@.take(i),
    )[c] is None by {
        if i < n {
            assert(s1.stack@[i] == s0.stack@[i]);
            assert(s1.stack@.take(i) =~= s0.stack@.take(i));
        } else {
            assert(s1.stack@.take(i) =~= s0.stack@);
        }
    }
    assert forall|b: usize| b < s1.block_count_spec() implies #[trigger] s1.rem@.contains(b)
        || s1.placed_block(b) by {
        if b == e.block_id {
            assert(s1.stack@[n as int] == e);
        } else if !s0.rem@.contains(b) {
            let i = choose|i: int| 0 <= i < s0.stack@.len() && (#[trigger] s0.stack@[i]).block_id == b;
            assert(s1.stack@[i] == s0.stack@[i]);
        }
    }
    assert forall|c: int| 0 <= c < p.volume() implies (#[trigger] s1.state@[c] matches Some(x)
        ==> p.valid_ids(x)) by {
        if !p.covers(e, c) {
            assert(s1.state@[c] == s0.state@[c]);
        }
    }
    assert forall|i: int| 0 <= i < s1.solutions@.len() implies p.is_packing(
        (#[trigger] s1.solutions@[i])@,
    ) by {
        if i < s0.solutions@.len() && s1.solutions@[i] == s0.solutions@[i] {
        } else {
            let x = s1.solutions@[i];
            assert((i < s0.solutions@.len() && x == s0.solutions@[i]) || (x@ == snapshot(
                s1.state@,
            ) && s1.position == s1.state@.len()));
            assert(s1.position == s1.state@.len());
            let sol = x@;
            // each cell holds a placed block covering it
            assert forall|c: int| 0 <= c < sol.len() implies {
                &&& p.valid_ids(#[trigger] sol[c])
                &&& p.in_bounds(sol[c])
                &&& p.covers(sol[c], c)
            } by {
                assert(c < s1.position);
                assert(s1.state@[c] is Some);
                assert(sol[c] == s1.state@[c]->Some_0);
                lemma_cells_of(p, s1.stack@, c);
                let j = choose|j: int|
                    0 <= j < s1.stack@.len() && s1.stack@[j] == sol[c] && #[trigger] p.covers(
                        s1.stack@[j],
                        c,
                    );
                assert(p.valid_ids(s1.stack@[j]));
            }
            assert forall|c1: int, c2: int|
                0 <= c1 < sol.len() && 0 <= c2 < sol.len() && (#[trigger] sol[c1]).block_id == (
                #[trigger] sol[c2]).block_id implies sol[c1] == sol[c2] by {
                assert(c1 < s1.position && c2 < s1.position);
                assert(s1.state@[c1] is Some && s1.state@[c2] is Some);
                assert(sol[c1] == s1.state@[c1]->Some_0);
                assert(sol[c2] == s1.state@[c2]->Some_0);
                lemma_cells_of(p, s1.stack@, c1);
                lemma_cells_of(p, s1.stack@, c2);
                let j1 = choose|j: int|
                    0 <= j < s1.stack@.len() && s1.stack@[j] == sol[c1] && #[trigger] p.covers(
                        s1.stack@[j],
                        c1,
                    );
                let j2 = choose|j: int|
                    0 <= j < s1.stack@.len() && s1.stack@[j] == sol[c2] && #[trigger] p.covers(
                        s1.stack@[j],
                        c2,
                    );
                if j1 != j2 {
                    if j1 < j2 {
                        assert(s1.stack@[j1].block_id != s1.stack@[j2].block_id);
                    } else {
                        assert(s1.stack@[j2].block_id != s1.stack@[j1].block_id);
                    }
                }
            }
        }
    }
    assert forall|k: int| 0 <= k < 6 implies {
        &&& #[trigger] s1.face_sums@[k] == p.value_sum(s1.stack@, k)
        &&& s1.face_free_areas@[k] + p.area_sum(s1.stack@, k) == p.face_total(k)
    } by {
        assert(s0.face_sums@[k] == p.value_sum(s0.stack@, k));
    }
    if s0.target is Some {
        let t = s0.target->Some_0;
        assert forall|k: int| 0 <= k < 6 implies #[trigger] s1.face_sums@[k] <= t by {
            assert(s0.face_ok(e, k, t as int));
        }
    }
}

/// Keeping the search invariant across a removal.
proof fn lemma_removal_keeps_wf(s0: Solver, s1: Solver)
    requires
        s0.wf(),
        s0.stack@.len() > 0,
        Solver::removal_step(&s0, &s1),
    ensures
        s1.wf(),
{
    let p = s0.puzzle();
    assert(s1.puzzle() == p);
    let n = s0.stack@.len() - 1;
    let e = s0.stack@[n];
    assert(s0.stack@.last() == e);
    assert(p.valid_ids(e) && p.in_bounds(e));
    assert(forall|i: int| 0 <= i < n ==> s1.stack@[i] == s0.stack@[i]);
    assert forall|c: int| 0 <= c < s1.position implies #[trigger] s1.state@[c] is Some by {
        assert(s0.state@[c] is Some);
        if p.covers(e, c) {
            lemma_covered_after_corner(p, e, c);
        }
    }
    assert(p.volume() == s0.state@.len());
    lemma_corner_covered(p, e);
    assert(s1.state@[e.position as int] is None);
    assert forall|i: int, c: int|
        0 <= i < n && 0 <= c < (#[trigger] s1.stack@[i]).position implies (
        #[trigger] s1.state@[c]) is Some by {
        assert(s0.stack@[i] == s1.stack@[i]);
        assert(s0.state@[c] is Some);
        if p.covers(e, c) {
            lemma_covered_after_corner(p, e, c);
        }
    }
    assert forall|i: int| 0 <= i < n implies !s1.rem@.contains(
        #[trigger] s1.stack@[i].block_id,
    ) by {
        assert(s0.stack@[i] == s1.stack@[i]);
        assert(s0.stack@[i].block_id != e.block_id);
    }
    assert forall|b: usize| #[trigger] s1.rem@.contains(b) implies b < s1.block_count_spec() by {
        if b != e.block_id {
            assert(s0.rem@.contains(b));
        }
    }
    assert(!s0.rem@.contains(e.block_id));
    assert(s1.rem@.len() == s0.rem@.len() + 1);
    assert(s0.stack@.take(n as int) =~= s1.stack@);
    lemma_cells_len(p, s1.stack@);
    assert forall|c: int| 0 <= c < s1.state@.len() implies #[trigger] s1.state@[c] == p.cells_of(
        s1.stack@,
    )[c] by {
        if p.covers(e, c) {
            assert(p.covers(s0.stack@[n as int], c));
        }
    }
    assert(s1.state@ =~= p.cells_of(s1.stack@));
    assert forall|i: int, c: int|
        0 <= i < n && #[trigger] p.covers(s1.stack@[i], c) implies p.cells_of(
        s1.stack@.take(i),
    )[c] is None by {
        assert(s1.stack@[i] == s0.stack@[i]);
        assert(s1.stack@.take(i) =~= s0.stack@.take(i));
    }
    assert forall|b: usize| b < s1.block_count_spec() implies #[trigger] s1.rem@.contains(b)
        || s1.placed_block(b) by {
        if b != e.block_id && !s0.rem@.contains(b) {
            let i = choose|i: int| 0 <= i < s0.stack@.len() && (#[trigger] s0.stack@[i]).block_id == b;
            assert(i != n);
            assert(s1.stack@[i] == s0.stack@[i]);
        }
    }
    assert forall|c: int| 0 <= c < p.volume() implies (#[trigger] s1.state@[c] matches Some(x)
        ==> p.valid_ids(x)) by {
        if !p.covers(e, c) {
            assert(s1.state@[c] == s0.state@[c]);
        }
    }
    assert(s0.stack@.drop_last() == s1.stack@);
    assert forall|k: int| 0 <= k < 6 implies {
        &&& #[trigger] s1.face_sums@[k] == p.value_sum(s1.stack@, k)
        &&& s1.face_free_areas@[k] + p.area_sum(s1.stack@, k) == p.face_total(k)
    } by {
        assert(s0.face_sums@[k] == p.value_sum(s0.stack@, k));
        assert(0 <= p.face_value(e, k));
    }
    if s0.target is Some {
        let t = s0.target->Some_0;
        assert forall|k: int| 0 <= k < 6 implies #[trigger] s1.face_sums@[k] <= t by {
            assert(s0.face_sums@[k] == p.value_sum(s0.stack@, k));
            assert(s0.face_sums@[k] <= t);
            assert(0 <= p.face_value(e, k));
        }
    }
}

impl Solver {
    /// Whether cell `c` lies inside the block placed as `e`, whose low
    /// corner has coordinates (x0, y0, z0).
    fn covers_cell(
        &self,
        e: BlockInPuzzle,
        block: &Block,
        x0: usize,
        y0: usize,
        z0: usize,
        c: usize,
    ) -> (r: bool)
        requires
            self.geometry_ok(),
            self.puzzle().valid_ids(e),
            *block == self.puzzle().block(e),
            x0 == self.puzzle().x_of(e.position as int),
            y0 == self.puzzle().y_of(e.position as int),
            z0 == self.puzzle().z_of(e.position as int),
            c < self.state@.len(),
        ensures
            r == self.puzzle().covers(e, c as int),
    {
        let h = self.puzzle_height;
        proof {
            lemma_slice_fits(h as int, self.puzzle_width as int, self.puzzle_depth as int);
        }
        let slice_area = h * self.puzzle_width;
        let x = c % h;
        let y = (c % slice_area) / h;
        let z = c / slice_area;
        x0 <= x && x - x0 < block.height as usize && y0 <= y && y - y0 < block.width as usize && z0
            <= z && z - z0 < block.depth as usize
    }

    /// Whether cell `c` lies on the outer face `dir_at(k)`.
    fn on_face_cell(&self, k: usize, c: usize) -> (r: bool)
        requires
            self.geometry_ok(),
            k < 6,
            c < self.state@.len(),
        ensures
            r == self.puzzle().on_face(k as int, c as int),
    {
        let h = self.puzzle_height;
        proof {
            lemma_slice_fits(h as int, self.puzzle_width as int, self.puzzle_depth as int);
        }
        let slice_area = h * self.puzzle_width;
        if k == 0 {
            c / slice_area == 0
        } else if k == 1 {
            c / slice_area == self.puzzle_depth - 1
        } else if k == 2 {
            (c % slice_area) / h == 0
        } else if k == 3 {
            (c % slice_area) / h == self.puzzle_width - 1
        } else if k == 4 {
            c % h == h - 1
        } else {
            c % h == 0
        }
    }

    /// Whether the block placed as `e` reaches the outer face `dir_at(k)`.
    fn touches_face(
        &self,
        e: BlockInPuzzle,
        block: &Block,
        x0: usize,
        y0: usize,
        z0: usize,
        k: usize,
    ) -> (r: bool)
        requires
            self.geometry_ok(),
            self.puzzle().valid_ids(e),
            self.puzzle().in_bounds(e),
            *block == self.puzzle().block(e),
            x0 == self.puzzle().x_of(e.position as int),
            y0 == self.puzzle().y_of(e.position as int),
            z0 == self.puzzle().z_of(e.position as int),
            k < 6,
        ensures
            r == self.puzzle().touches(e, k as int),
    {
        if k == 0 {
            z0 == 0
        } else if k == 1 {
            z0 + block.depth as usize == self.puzzle_depth
        } else if k == 2 {
            y0 == 0
        } else if k == 3 {
            y0 + block.width as usize == self.puzzle_width
        } else if k == 4 {
            x0 + block.height as usize == self.puzzle_height
        } else {
            x0 == 0
        }
    }

    /// Whether, with `e` placed, every cell of the outer face `dir_at(k)`
    /// would be filled.
    fn completes_face_exec(
        &self,
        e: BlockInPuzzle,
        block: &Block,
        x0: usize,
        y0: usize,
        z0: usize,
        k: usize,
    ) -> (r: bool)
        requires
            self.geometry_ok(),
            self.puzzle().valid_ids(e),
            *block == self.puzzle().block(e),
            x0 == self.puzzle().x_of(e.position as int),
            y0 == self.puzzle().y_of(e.position as int),
            z0 == self.puzzle().z_of(e.position as int),
            k < 6,
        ensures
            r == self.completes_face(e, k as int),
    {
        let ghost p = self.puzzle();
        let volume = self.state.len();
        let mut c: usize = 0;
        while c < volume
            invariant
                self.geometry_ok(),
                p == self.puzzle(),
                p.valid_ids(e),
                *block == p.block(e),
                x0 == p.x_of(e.position as int),
                y0 == p.y_of(e.position as int),
                z0 == p.z_of(e.position as int),
                k < 6,
                volume == self.state@.len(),
                c <= volume,
                forall|c2: int|
                    0 <= c2 < c && #[trigger] p.on_face(k as int, c2) ==> if p.covers(e, c2) {
                        self.state@[c2] is None
                    } else {
                        self.state@[c2] is Some
                    },
            decreases volume - c,
        {
            if self.on_face_cell(k, c) {
                if self.covers_cell(e, block, x0, y0, z0, c) {
                    if self.state[c].is_some() {
                        assert(p.on_face(k as int, c as int));
                        return false;
                    }
                } else if self.state[c].is_none() {
                    assert(p.on_face(k as int, c as int));
                    return false;
                }
            }
            c += 1;
        }
        true
    }

    /// The labeled check of the outer face `dir_at(k)` for placing `e`.
    fn face_allows(
        &self,
        e: BlockInPuzzle,
        block: &Block,
        x0: usize,
        y0: usize,
        z0: usize,
        k: usize,
        target_sum: u8,
    ) -> (r: bool)
        requires
            self.geometry_ok(),
            self.puzzle().valid_ids(e),
            self.puzzle().in_bounds(e),
            *block == self.puzzle().block(e),
            x0 == self.puzzle().x_of(e.position as int),
            y0 == self.puzzle().y_of(e.position as int),
            z0 == self.puzzle().z_of(e.position as int),
            k < 6,
            0 <= self.face_sums@[k as int] <= target_sum,
        ensures
            r == self.face_ok(e, k as int, target_sum as int),
    {
        if !self.touches_face(e, block, x0, y0, z0, k) {
            return true;
        }
        let face = block.faces[k];
        let new_sum: i128 = self.face_sums[k] + face.value as i128;
        let target = target_sum as i128;
        if new_sum > target {
            return false;
        }
        if new_sum == target && !self.completes_face_exec(e, block, x0, y0, z0, k) {
            return false;
        }
        let long = face.long as usize;
        let short = face.short as usize;
        assert(long * short <= 255 * 255) by (nonlinear_arith)
            requires
                long <= 255,
                short <= 255,
        ;
        let area = (long * short) as i128;
        let free = self.face_free_areas[k];
        if new_sum < target && free == area {
            return false;
        }
        true
    }

    /// Whether every cell of the block placed as `e` is empty.
    fn box_is_empty(&self, e: BlockInPuzzle, block: &Block, x0: usize, y0: usize, z0: usize) -> (r:
        bool)
        requires
            self.geometry_ok(),
            self.puzzle().valid_ids(e),
            *block == self.puzzle().block(e),
            x0 == self.puzzle().x_of(e.position as int),
            y0 == self.puzzle().y_of(e.position as int),
            z0 == self.puzzle().z_of(e.position as int),
        ensures
            r == self.box_empty(e),
    {
        let ghost p = self.puzzle();
        let volume = self.state.len();
        let mut c: usize = 0;
        while c < volume
            invariant
                self.geometry_ok(),
                p == self.puzzle(),
                p.valid_ids(e),
                *block == p.block(e),
                x0 == p.x_of(e.position as int),
                y0 == p.y_of(e.position as int),
                z0 == p.z_of(e.position as int),
                volume == self.state@.len(),
                c <= volume,
                forall|c2: int| 0 <= c2 < c && #[trigger] p.covers(e, c2) ==> self.state@[c2] is None,
            decreases volume - c,
        {
            if self.covers_cell(e, block, x0, y0, z0, c) && self.state[c].is_some() {
                assert(p.covers(e, c as int));
                return false;
            }
            c += 1;
        }
        true
    }

    /// Sets every cell of the block placed as `e` to `v`.
    fn paint(
        &mut self,
        e: BlockInPuzzle,
        block: &Block,
        x0: usize,
        y0: usize,
        z0: usize,
        v: Option<BlockInPuzzle>,
    )
        requires
            old(self).geometry_ok(),
            old(self).puzzle().valid_ids(e),
            *block == old(self).puzzle().block(e),
            x0 == old(self).puzzle().x_of(e.position as int),
            y0 == old(self).puzzle().y_of(e.position as int),
            z0 == old(self).puzzle().z_of(e.position as int),
        ensures
            final(self).state@ == old(self).puzzle().painted(old(self).state@, e, v),
            *final(self) == (Solver { state: final(self).state, ..*old(self) }),
    {
        let ghost p = self.puzzle();
        let ghost before = self.state@;
        let volume = self.state.len();
        let mut c: usize = 0;
        while c < volume
            invariant
                self.geometry_ok(),
                p == self.puzzle(),
                p.valid_ids(e),
                *block == p.block(e),
                x0 == p.x_of(e.position as int),
                y0 == p.y_of(e.position as int),
                z0 == p.z_of(e.position as int),
                volume == self.state@.len(),
                before.len() == volume,
                c <= volume,
                *self == (Solver { state: self.state, ..*old(self) }),
                forall|c2: int|
                    0 <= c2 < c ==> #[trigger] self.state@[c2] == if p.covers(e, c2) {
                        v
                    } else {
                        before[c2]
                    },
                forall|c2: int| c <= c2 < volume ==> #[trigger] self.state@[c2] == before[c2],
            decreases volume - c,
        {
            if self.covers_cell(e, block, x0, y0, z0, c) {
                self.state.set(c, v);
            }
            c += 1;
        }
        assert(self.state@ =~= p.painted(before, e, v));
    }

    /// Adds the block placed as `e` to the face ledgers.
    fn add_block_to_faces(&mut self, e: BlockInPuzzle, block: &Block, x0: usize, y0: usize, z0: usize)
        requires
            old(self).geometry_ok(),
            old(self).puzzle().valid_ids(e),
            old(self).puzzle().in_bounds(e),
            *block == old(self).puzzle().block(e),
            x0 == old(self).puzzle().x_of(e.position as int),
            y0 == old(self).puzzle().y_of(e.position as int),
            z0 == old(self).puzzle().z_of(e.position as int),
            forall|k: int| 0 <= k < 6 ==> #[trigger] old(self).ledger_room(e, k),
        ensures
            forall|k: int|
                0 <= k < 6 ==> #[trigger] final(self).face_sums@[k] == old(self).face_sums@[k]
                    + old(self).ledger_value(e, k),
            forall|k: int|
                0 <= k < 6 ==> #[trigger] final(self).face_free_areas@[k]
                    == old(self).face_free_areas@[k] - old(self).ledger_area(e, k),
            *final(self) == (Solver {
                face_sums: final(self).face_sums,
                face_free_areas: final(self).face_free_areas,
                ..*old(self)
            }),
    {
        let mut k: usize = 0;
        while k < 6
            invariant
                self.geometry_ok(),
                self.puzzle() == old(self).puzzle(),
                old(self).puzzle().valid_ids(e),
                old(self).puzzle().in_bounds(e),
                *block == old(self).puzzle().block(e),
                x0 == old(self).puzzle().x_of(e.position as int),
                y0 == old(self).puzzle().y_of(e.position as int),
                z0 == old(self).puzzle().z_of(e.position as int),
                forall|k2: int| 0 <= k2 < 6 ==> #[trigger] old(self).ledger_room(e, k2),
                k <= 6,
                *self == (Solver {
                    face_sums: self.face_sums,
                    face_free_areas: self.face_free_areas,
                    ..*old(self)
                }),
                forall|k2: int|
                    0 <= k2 < k ==> #[trigger] self.face_sums@[k2] == old(self).face_sums@[k2]
                        + old(self).ledger_value(e, k2),
                forall|k2: int|
                    0 <= k2 < k ==> #[trigger] self.face_free_areas@[k2]
                        == old(self).face_free_areas@[k2] - old(self).ledger_area(e, k2),
                forall|k2: int|
                    k <= k2 < 6 ==> #[trigger] self.face_sums@[k2] == old(self).face_sums@[k2],
                forall|k2: int|
                    k <= k2 < 6 ==> #[trigger] self.face_free_areas@[k2]
                        == old(self).face_free_areas@[k2],
            decreases 6 - k,
        {
            if self.touches_face(e, block, x0, y0, z0, k) {
                assert(old(self).ledger_room(e, k as int));
                let face = block.faces[k];
                let long = face.long as i128;
                let short = face.short as i128;
                assert(0 <= long * short <= 255 * 255) by (nonlinear_arith)
                    requires
                        0 <= long <= 255,
                        0 <= short <= 255,
                ;
                self.face_sums[k] = self.face_sums[k] + face.value as i128;
                self.face_free_areas[k] = self.face_free_areas[k] - long * short;
            }
            k += 1;
        }
    }

    /// Tries to put the block `bip` into the cells, at the next position.
    /// On success, returns the next empty cell (or the volume, when the
    /// puzzle is full); the stack is left to the caller.
    fn place_3d(&mut self, bip: BlockInPuzzle) -> (r: Option<usize>)
        requires
            old(self).wf(),
            old(self).puzzle().valid_ids(bip),
            bip.position == old(self).position,
        ensures
            r is Some == old(self).fits(bip),
            r is None ==> *final(self) == *old(self),
            r matches Some(np) ==> {
                &&& final(self).state@ == old(self).puzzle().painted(
                    old(self).state@,
                    bip,
                    Some(bip),
                )
                &&& forall|k: int|
                    0 <= k < 6 ==> #[trigger] final(self).face_sums@[k] == old(self).face_sums@[k]
                        + old(self).ledger_value(bip, k)
                &&& forall|k: int|
                    0 <= k < 6 ==> #[trigger] final(self).face_free_areas@[k]
                        == old(self).face_free_areas@[k] - old(self).ledger_area(bip, k)
                &&& Solver::first_empty_from(final(self).state@, old(self).position as int, np as int)
                &&& *final(self) == (Solver {
                    state: final(self).state,
                    face_sums: final(self).face_sums,
                    face_free_areas: final(self).face_free_areas,
                    ..*old(self)
                })
            },
    {
        let ghost p = self.puzzle();
        let h = self.puzzle_height;
        let w = self.puzzle_width;
        let d = self.puzzle_depth;
        proof {
            lemma_slice_fits(h as int, w as int, d as int);
        }
        let volume = self.state.len();
        let slice_area = h * w;
        let start_point = bip.position;
        if start_point >= volume {
            return None;
        }
        proof {
            lemma_coords(p, start_point as int);
        }
        let block = self.rot_blocks[bip.block_id][bip.rot_id];
        assert(block == p.block(bip));
        let x_start = start_point % h;
        let y_start = (start_point % slice_area) / h;
        let z_start = start_point / slice_area;
        if block.height as usize > h - x_start || block.width as usize > w - y_start
            || block.depth as usize > d - z_start {
            return None;
        }
        if let Some(target_sum) = self.target {
            proof {
                assert forall|k: int| 0 <= k < 6 implies 0 <= #[trigger] self.face_sums@[k] <= target_sum by {
                    lemma_ledger_bounds(p, self.stack@, k);
                }
            }
            // the outer faces in turn: Bottom, Top, Left, Right, Front, Back
            if !self.face_allows(bip, &block, x_start, y_start, z_start, 5, target_sum) {
                return None;
            }
            if !self.face_allows(bip, &block, x_start, y_start, z_start, 4, target_sum) {
                return None;
            }
            if !self.face_allows(bip, &block, x_start, y_start, z_start, 2, target_sum) {
                return None;
            }
            if !self.face_allows(bip, &block, x_start, y_start, z_start, 3, target_sum) {
                return None;
            }
            if !self.face_allows(bip, &block, x_start, y_start, z_start, 0, target_sum) {
                return None;
            }
            if !self.face_allows(bip, &block, x_start, y_start, z_start, 1, target_sum) {
                return None;
            }
            assert forall|k: int| 0 <= k < 6 implies #[trigger] self.face_ok(
                bip,
                k,
                target_sum as int,
            ) by {
                assert(k == 0 || k == 1 || k == 2 || k == 3 || k == 4 || k == 5);
            }
        }
        // only if the block fits...
        if !self.box_is_empty(bip, &block, x_start, y_start, z_start) {
            return None;
        }
        // ... is the state updated
        self.paint(bip, &block, x_start, y_start, z_start, Some(bip));
        proof {
            assert(old(self).stack@.len() <= usize::MAX) by {
                assert(old(self).stack.len() == old(self).stack@.len());
            }
            assert forall|k: int| 0 <= k < 6 implies #[trigger] self.ledger_room(bip, k) by {
                lemma_ledger_bounds(p, old(self).stack@, k);
                lemma_face_area_bound(p.block(bip).faces[k]);
                let n = old(self).stack@.len() as int;
                assert(255 * n + 255 <= i128::MAX) by (nonlinear_arith)
                    requires
                        0 <= n <= usize::MAX,
                ;
                assert(-65025 * n - 65025 >= i128::MIN) by (nonlinear_arith)
                    requires
                        0 <= n <= usize::MAX,
                ;
                assert(p.face_total(k) >= 0) by {
                    lemma_slice_fits(p.h, p.w, p.d);
                }
            }
        }
        self.add_block_to_faces(bip, &block, x_start, y_start, z_start);
        let mut new_start_point = start_point;
        while new_start_point < volume && self.state[new_start_point].is_some()
            invariant
                start_point <= new_start_point <= volume,
                volume == self.state@.len(),
                forall|c: int| start_point <= c < new_start_point ==> self.state@[c] is Some,
            decreases volume - new_start_point,
        {
            new_start_point += 1;
        }
        Some(new_start_point)
    }
}

/// Two placement lists are the same.
fn same_placements(a: &Vec<BlockInPuzzle>, b: &Vec<BlockInPuzzle>) -> (r: bool)
    ensures
        r == (a@ == b@),
{
    if a.len() != b.len() {
        return false;
    }
    let mut i: usize = 0;
    while i < a.len()
        invariant
            a@.len() == b@.len(),
            i <= a@.len(),
            forall|j: int| 0 <= j < i ==> a@[j] == b@[j],
        decreases a@.len() - i,
    {
        if a[i] != b[i] {
            return false;
        }
        i += 1;
    }
    assert(a@ =~= b@);
    true
}

impl Solver {
    /// The placed block of every cell; all cells are filled.
    fn state_snapshot(&self) -> (r: Vec<BlockInPuzzle>)
        requires
            forall|c: int| 0 <= c < self.state@.len() ==> #[trigger] self.state@[c] is Some,
        ensures
            r@ == snapshot(self.state@),
    {
        let mut r: Vec<BlockInPuzzle> = Vec::new();
        let mut c: usize = 0;
        while c < self.state.len()
            invariant
                c <= self.state@.len(),
                forall|c2: int| 0 <= c2 < self.state@.len() ==> #[trigger] self.state@[c2] is Some,
                r@ =~= snapshot(self.state@).take(c as int),
            decreases self.state@.len() - c,
        {
            r.push(self.state[c].unwrap());
            c += 1;
        }
        assert(snapshot(self.state@).take(c as int) =~= snapshot(self.state@));
        r
    }

    /// Whether `s` was found already.
    fn has_solution_exec(&self, s: &Vec<BlockInPuzzle>) -> (r: bool)
        ensures
            r == self.has_solution(s@),
    {
        let mut i: usize = 0;
        while i < self.solutions.len()
            invariant
                i <= self.solutions@.len(),
                forall|j: int| 0 <= j < i ==> (#[trigger] self.solutions@[j])@ != s@,
            decreases self.solutions@.len() - i,
        {
            if same_placements(&self.solutions[i], s) {
                return true;
            }
            i += 1;
        }
        false
    }

    /// Tries to go deeper in the search by placing rotation `rot_id` of
    /// block `block_id` at the next position. A placement that fills the
    /// puzzle is recorded as a solution.
    fn deeper(&mut self, block_id: usize, rot_id: usize) -> (r: bool)
        requires
            old(self).wf(),
            block_id < old(self).rot_blocks@.len(),
            rot_id < old(self).rot_blocks@[block_id as int]@.len(),
            old(self).rem@.contains(block_id),
            !old(self).done,
        ensures
            final(self).wf(),
            final(self).same_puzzle(old(self)),
            r == old(self).fits(
                BlockInPuzzle { block_id, rot_id, position: old(self).position },
            ),
            !r ==> *final(self) == *old(self),
            r ==> Solver::placement_step(
                old(self),
                BlockInPuzzle { block_id, rot_id, position: old(self).position },
                final(self),
            ),
            r && final(self).position == final(self).state@.len() ==> forall|s: Seq<BlockInPuzzle>|
                #[trigger] final(self).has_solution(s) <==> old(self).has_solution(s) || s
                    == snapshot(final(self).state@),
            !(r && final(self).position == final(self).state@.len()) ==> final(self).solutions@
                == old(self).solutions@,
            final(self).solutions@.len() <= old(self).solutions@.len() + 1,
    {
        let e = BlockInPuzzle { block_id, rot_id, position: self.position };
        assert(self.puzzle().valid_ids(e));
        match self.place_3d(e) {
            Some(new_position) => {
                self.stack.push(e);
                self.rem.remove(&block_id);
                self.position = new_position;
                if self.position == self.state.len() {
                    let solution = self.state_snapshot();
                    if !self.has_solution_exec(&solution) {
                        let ghost before = self.solutions@;
                        self.solutions.push(solution);
                        proof {
                            assert forall|s: Seq<BlockInPuzzle>| #[trigger]
                                self.has_solution(s) <==> old(self).has_solution(s) || s
                                    == snapshot(self.state@) by {
                                if old(self).has_solution(s) {
                                    let i = choose|i: int|
                                        0 <= i < before.len() && (#[trigger] before[i])@ == s;
                                    assert(self.solutions@[i] == before[i]);
                                }
                                if s == snapshot(self.state@) {
                                    assert(self.solutions@[before.len() as int]@ == s);
                                }
                                if self.has_solution(s) {
                                    let i = choose|i: int|
                                        0 <= i < self.solutions@.len()
                                            && (#[trigger] self.solutions@[i])@ == s;
                                    if i < before.len() {
                                        assert(before[i] == self.solutions@[i]);
                                    }
                                }
                            }
                        }
                    }
                }
                proof {
                    lemma_placement_keeps_wf(*old(self), e, *self);
                }
                true
            },
            None => false,
        }
    }

    /// Takes the cells of the block placed as `bip` back.
    fn remove_block_from_state(&mut self, bip: BlockInPuzzle)
        requires
            old(self).geometry_ok(),
            old(self).puzzle().valid_ids(bip),
        ensures
            final(self).state@ == old(self).puzzle().painted(old(self).state@, bip, None),
            *final(self) == (Solver { state: final(self).state, ..*old(self) }),
    {
        let ghost p = self.puzzle();
        let h = self.puzzle_height;
        proof {
            lemma_slice_fits(h as int, self.puzzle_width as int, self.puzzle_depth as int);
        }
        let slice_area = h * self.puzzle_width;
        let block = self.rot_blocks[bip.block_id][bip.rot_id];
        let position = bip.position;
        let x_start = position % h;
        let y_start = (position % slice_area) / h;
        let z_start = position / slice_area;
        self.paint(bip, &block, x_start, y_start, z_start, None);
    }

    /// Takes the block placed as `bip` out of the face ledgers.
    fn remove_block_from_face_state(&mut self, bip: BlockInPuzzle)
        requires
            old(self).geometry_ok(),
            old(self).puzzle().valid_ids(bip),
            old(self).puzzle().in_bounds(bip),
            forall|k: int|
                0 <= k < 6 ==> #[trigger] old(self).face_sums@[k] >= old(self).ledger_value(bip, k),
            forall|k: int|
                0 <= k < 6 ==> #[trigger] old(self).face_free_areas@[k] + old(self).ledger_area(
                    bip,
                    k,
                ) <= usize::MAX,
        ensures
            forall|k: int|
                0 <= k < 6 ==> #[trigger] final(self).face_sums@[k] == old(self).face_sums@[k]
                    - old(self).ledger_value(bip, k),
            forall|k: int|
                0 <= k < 6 ==> #[trigger] final(self).face_free_areas@[k]
                    == old(self).face_free_areas@[k] + old(self).ledger_area(bip, k),
            *final(self) == (Solver {
                face_sums: final(self).face_sums,
                face_free_areas: final(self).face_free_areas,
                ..*old(self)
            }),
    {
        let ghost p = self.puzzle();
        let h = self.puzzle_height;
        proof {
            lemma_slice_fits(h as int, self.puzzle_width as int, self.puzzle_depth as int);
            lemma_coords(p, bip.position as int);
        }
        let slice_area = h * self.puzzle_width;
        let block = self.rot_blocks[bip.block_id][bip.rot_id];
        let position = bip.position;
        let x_start = position % h;
        let y_start = (position % slice_area) / h;
        let z_start = position / slice_area;
        let mut k: usize = 0;
        while k < 6
            invariant
                self.geometry_ok(),
                self.puzzle() == p,
                p.valid_ids(bip),
                p.in_bounds(bip),
                block == p.block(bip),
                x_start == p.x_of(bip.position as int),
                y_start == p.y_of(bip.position as int),
                z_start == p.z_of(bip.position as int),
                k <= 6,
                forall|k2: int|
                    0 <= k2 < 6 ==> #[trigger] old(self).face_sums@[k2] >= old(self).ledger_value(
                        bip,
                        k2,
                    ),
                forall|k2: int|
                    0 <= k2 < 6 ==> #[trigger] old(self).face_free_areas@[k2] + old(
                        self,
                    ).ledger_area(bip, k2) <= usize::MAX,
                *self == (Solver {
                    face_sums: self.face_sums,
                    face_free_areas: self.face_free_areas,
                    ..*old(self)
                }),
                forall|k2: int|
                    0 <= k2 < k ==> #[trigger] self.face_sums@[k2] == old(self).face_sums@[k2]
                        - old(self).ledger_value(bip, k2),
                forall|k2: int|
                    0 <= k2 < k ==> #[trigger] self.face_free_areas@[k2]
                        == old(self).face_free_areas@[k2] + old(self).ledger_area(bip, k2),
                forall|k2: int|
                    k <= k2 < 6 ==> #[trigger] self.face_sums@[k2] == old(self).face_sums@[k2],
                forall|k2: int|
                    k <= k2 < 6 ==> #[trigger] self.face_free_areas@[k2]
                        == old(self).face_free_areas@[k2],
            decreases 6 - k,
        {
            if self.touches_face(bip, &block, x_start, y_start, z_start, k) {
                let face = block.faces[k];
                let long = face.long as i128;
                let short = face.short as i128;
                assert(0 <= long * short <= 255 * 255) by (nonlinear_arith)
                    requires
                        0 <= long <= 255,
                        0 <= short <= 255,
                ;
                assert(old(self).face_sums@[k as int] >= old(self).ledger_value(bip, k as int));
                assert(old(self).face_free_areas@[k as int] + old(self).ledger_area(
                    bip,
                    k as int,
                ) <= usize::MAX);
                self.face_sums[k] = self.face_sums[k] - face.value as i128;
                self.face_free_areas[k] = self.face_free_areas[k] + long * short;
            }
            k += 1;
        }
    }

    /// Takes the last placed block off, then tries to move sideways: first
    /// further rotations of the same block, then the higher blocks still to
    /// be placed. With `first_block_quarter`, the first placement, whatever
    /// its block, only takes the first quarter of the block's rotations.
    fn move_sideway_or_backtrack(&mut self) -> (r: bool)
        requires
            old(self).wf(),
            old(self).stack@.len() > 0,
        ensures
            final(self).wf(),
            final(self).same_puzzle(old(self)),
            final(self).done == old(self).done,
            forall|s: Seq<BlockInPuzzle>| #[trigger]
                old(self).has_solution(s) ==> final(self).has_solution(s),
            r ==> final(self).stack@.len() == old(self).stack@.len(),
            r ==> final(self).stack@.drop_last() == old(self).stack@.drop_last(),
            r ==> old(self).puzzle().code(final(self).stack@.last()) > old(self).puzzle().code(
                old(self).stack@.last(),
            ),
            !r ==> final(self).stack@ == old(self).stack@.drop_last(),
            // on failure, the last block is taken off: cells, ledgers,
            // position and remaining blocks as before it was placed
            !r ==> Solver::removal_step(old(self), final(self)),
            // otherwise the least later candidate that fits at the freed
            // position replaces it
            exists|s1: Solver|
                {
                    &&& #[trigger] Solver::removal_step(old(self), &s1)
                    &&& s1.wf()
                    &&& r == exists|b: int, rot: int|
                        s1.sideways_candidate(old(self).stack@.last(), b, rot)
                    &&& r ==> exists|b: int, rot: int|
                        {
                            &&& #[trigger] s1.sideways_candidate(old(self).stack@.last(), b, rot)
                            &&& Solver::placement_step(
                                &s1,
                                BlockInPuzzle {
                                    block_id: b as usize,
                                    rot_id: rot as usize,
                                    position: s1.position,
                                },
                                final(self),
                            )
                            &&& forall|b2: int, r2: int|
                                Solver::tried_before(b2, r2, b, rot) ==> !#[trigger] s1.sideways_candidate(
                                    old(self).stack@.last(),
                                    b2,
                                    r2,
                                )
                        }
                },
            r && final(self).position == final(self).state@.len() ==> final(self).has_solution(
                snapshot(final(self).state@),
            ),
            // a solution found by this call is the placement it reaches,
            // filling the puzzle
            forall|s: Seq<BlockInPuzzle>| #[trigger]
                final(self).has_solution(s) ==> old(self).has_solution(s) || (s == snapshot(
                    final(self).state@,
                ) && final(self).position == final(self).state@.len()),
    {
        let ghost p = self.puzzle();
        let ghost s0 = *self;
        let ghost n = self.stack@.len();
        let top = self.stack.pop().unwrap();
        let block_id = top.block_id;
        let rot_id = top.rot_id;
        let position = top.position;
        proof {
            assert(top == s0.stack@[n - 1]);
            assert(p.valid_ids(top) && p.in_bounds(top));
            assert(s0.stack@.drop_last() =~= self.stack@);
            lemma_slice_fits(p.h, p.w, p.d);
            assert forall|k: int| 0 <= k < 6 implies #[trigger] self.face_sums@[k]
                >= self.ledger_value(top, k) && self.face_free_areas@[k] + self.ledger_area(top, k)
                <= usize::MAX by {
                {
                    assert(s0.face_sums@[k] == p.value_sum(s0.stack@, k));
                    assert(s0.face_free_areas@[k] + p.area_sum(s0.stack@, k) == p.face_total(k));
                    assert(p.area_sum(s0.stack@, k) == p.area_sum(self.stack@, k)
                        + self.ledger_area(top, k));
                    assert(p.value_sum(s0.stack@, k) == p.value_sum(self.stack@, k)
                        + self.ledger_value(top, k));
                    lemma_area_sum_nonnegative(p, self.stack@, k);
                    lemma_value_sum_nonnegative(p, self.stack@, k);
                    assert(p.face_total(k) <= p.volume());
                }
            }
            assert forall|k: int| 0 <= k < 6 implies #[trigger] self.face_free_areas@[k]
                + self.ledger_area(top, k) <= usize::MAX by {
                assert(self.face_sums@[k] >= self.ledger_value(top, k));
            }
        }
        self.remove_block_from_state(top);
        self.remove_block_from_face_state(top);
        self.position = position;
        self.rem.insert(block_id);
        proof {
            assert(Solver::removal_step(&s0, self));
            assert(s0 == *old(self));
            lemma_removal_keeps_wf(s0, *self);
            lemma_max_len(p.blocks, block_id as int);
        }
        let ghost s1 = *self;
        let ghost t = top;
        let mut limit = self.rot_blocks[block_id].len();
        // the first placement's rotations may be restricted to the first
        // quarter of the list, which stands for the rotations of the whole
        // puzzle
        let first_quarter = self.first_block_quarter && self.stack.len() == 0;
        if first_quarter {
            limit = limit / 4;
        }
        assert(limit == s1.rot_limit(block_id as int));
        let mut rot = rot_id + 1;
        while rot < limit
            invariant
                *self == s1,
                p == s1.puzzle(),
                t == old(self).stack@.last(),
                t.block_id == block_id,
                t.rot_id == rot_id,
                rot_id < p.blocks[block_id as int].len(),
                Solver::removal_step(old(self), &s1),
                s1.same_puzzle(old(self)),
                s1.done == old(self).done,
                s1.stack@ == old(self).stack@.drop_last(),
                s1.solutions@ == old(self).solutions@,
                !s1.done,
                old(self).stack@.len() > 0,
                s1.wf(),
                s1.rem@.contains(block_id),
                block_id < s1.rot_blocks@.len(),
                limit == s1.rot_limit(block_id as int),
                limit <= s1.rot_blocks@[block_id as int]@.len(),
                rot > rot_id,
                forall|b2: int, r2: int|
                    Solver::tried_before(b2, r2, block_id as int, rot as int)
                        ==> !#[trigger] s1.sideways_candidate(t, b2, r2),
            decreases limit - rot,
        {
            if self.deeper(block_id, rot) {
                proof {
                    lemma_code_order(p, block_id, rot_id, block_id, rot);
                    assert(self.stack@.drop_last() =~= s1.stack@);
                    assert(self.stack@.last() == BlockInPuzzle {
                        block_id,
                        rot_id: rot,
                        position: s1.position,
                    });
                    assert(s1.sideways_candidate(t, block_id as int, rot as int));
                }
                return true;
            }
            proof {
                assert forall|b2: int, r2: int|
                    Solver::tried_before(b2, r2, block_id as int, rot + 1)
                        implies !#[trigger] s1.sideways_candidate(t, b2, r2) by {
                    if !Solver::tried_before(b2, r2, block_id as int, rot as int) {
                        assert(b2 == block_id && r2 == rot);
                    }
                }
            }
            rot += 1;
        }
        proof {
            assert forall|b2: int, r2: int|
                Solver::tried_before(b2, r2, block_id + 1, 0)
                    implies !#[trigger] s1.sideways_candidate(t, b2, r2) by {
                if s1.sideways_candidate(t, b2, r2) && !Solver::tried_before(
                    b2,
                    r2,
                    block_id as int,
                    rot as int,
                ) {
                    assert(b2 == block_id);
                }
            }
        }
        // try placing a sibling
        let block_count = self.rot_blocks.len();
        assert(block_id < block_count);
        let mut b = block_id + 1;
        while b < self.rot_blocks.len()
            invariant
                *self == s1,
                p == s1.puzzle(),
                s1.wf(),
                b > block_id,
                t == old(self).stack@.last(),
                t.block_id == block_id,
                t.rot_id == rot_id,
                Solver::removal_step(old(self), &s1),
                s1.same_puzzle(old(self)),
                s1.done == old(self).done,
                s1.stack@ == old(self).stack@.drop_last(),
                s1.solutions@ == old(self).solutions@,
                !s1.done,
                old(self).stack@.len() > 0,
                block_id < s1.rot_blocks@.len(),
                rot_id < s1.rot_blocks@[block_id as int]@.len(),
                first_quarter == (s1.first_block_quarter && s1.stack@.len() == 0),
                forall|b2: int, r2: int|
                    Solver::tried_before(b2, r2, b as int, 0) ==> !#[trigger] s1.sideways_candidate(
                        t,
                        b2,
                        r2,
                    ),
            decreases s1.rot_blocks@.len() - b,
        {
            if self.rem.contains(&b) {
                let mut limit_b = self.rot_blocks[b].len();
                if first_quarter {
                    limit_b = limit_b / 4;
                }
                assert(limit_b == s1.rot_limit(b as int));
                let mut rot: usize = 0;
                while rot < limit_b
                    invariant
                        *self == s1,
                        p == s1.puzzle(),
                        s1.wf(),
                        s1.rem@.contains(b),
                        t == old(self).stack@.last(),
                        t.block_id == block_id,
                        t.rot_id == rot_id,
                        Solver::removal_step(old(self), &s1),
                        s1.same_puzzle(old(self)),
                        s1.done == old(self).done,
                        s1.stack@ == old(self).stack@.drop_last(),
                        s1.solutions@ == old(self).solutions@,
                        !s1.done,
                        old(self).stack@.len() > 0,
                        block_id < b < s1.rot_blocks@.len(),
                        rot_id < s1.rot_blocks@[block_id as int]@.len(),
                        limit_b == s1.rot_limit(b as int),
                        limit_b <= s1.rot_blocks@[b as int]@.len(),
                        first_quarter == (s1.first_block_quarter && s1.stack@.len() == 0),
                        forall|b2: int, r2: int|
                            Solver::tried_before(b2, r2, b as int, rot as int)
                                ==> !#[trigger] s1.sideways_candidate(t, b2, r2),
                    decreases limit_b - rot,
                {
                    if self.deeper(b, rot) {
                        proof {
                            lemma_code_order(p, block_id, rot_id, b, rot);
                            assert(self.stack@.drop_last() =~= s1.stack@);
                            assert(self.stack@.last() == BlockInPuzzle {
                                block_id: b,
                                rot_id: rot,
                                position: s1.position,
                            });
                            assert(s1.sideways_candidate(t, b as int, rot as int));
                        }
                        return true;
                    }
                    proof {
                        assert forall|b2: int, r2: int|
                            Solver::tried_before(b2, r2, b as int, rot + 1)
                                implies !#[trigger] s1.sideways_candidate(t, b2, r2) by {
                            if !Solver::tried_before(b2, r2, b as int, rot as int) {
                                assert(b2 == b && r2 == rot);
                            }
                        }
                    }
                    rot += 1;
                }
                proof {
                    assert forall|b2: int, r2: int|
                        Solver::tried_before(b2, r2, b + 1, 0)
                            implies !#[trigger] s1.sideways_candidate(t, b2, r2) by {
                        if s1.sideways_candidate(t, b2, r2) && !Solver::tried_before(
                            b2,
                            r2,
                            b as int,
                            rot as int,
                        ) {
                            assert(b2 == b);
                        }
                    }
                }
            } else {
                proof {
                    assert forall|b2: int, r2: int|
                        Solver::tried_before(b2, r2, b + 1, 0)
                            implies !#[trigger] s1.sideways_candidate(t, b2, r2) by {
                        if s1.sideways_candidate(t, b2, r2) && b2 == b {
                            assert(s1.rem@.contains(b));
                        }
                    }
                }
            }
            b += 1;
        }
        // stay backtracked
        proof {
            assert forall|b2: int, r2: int| !#[trigger] s1.sideways_candidate(t, b2, r2) by {
                if s1.sideways_candidate(t, b2, r2) {
                    assert(Solver::tried_before(b2, r2, b as int, 0));
                }
            }
            assert(Solver::removal_step(old(self), &s1));
        }
        false
    }
}

/// The ledgers of the placed blocks `s` stay within bounds: a face value is
/// below 256, a face area below 65026.
proof fn lemma_ledger_bounds(p: Puzzle, s: Seq<BlockInPuzzle>, k: int)
    ensures
        0 <= p.value_sum(s, k) <= 255 * s.len(),
        0 <= p.area_sum(s, k) <= 65025 * s.len(),
    decreases s.len(),
{
    if s.len() > 0 {
        lemma_ledger_bounds(p, s.drop_last(), k);
        lemma_face_area_bound(p.block(s.last()).faces[k]);
    }
}

proof fn lemma_face_area_bound(f: Face)
    ensures
        0 <= face_area(f) <= 65025,
{
    assert(0 <= f.long * f.short <= 255 * 255) by (nonlinear_arith)
        requires
            0 <= f.long <= 255,
            0 <= f.short <= 255,
    ;
}

proof fn lemma_value_sum_nonnegative(p: Puzzle, s: Seq<BlockInPuzzle>, k: int)
    ensures
        p.value_sum(s, k) >= 0,
    decreases s.len(),
{
    if s.len() > 0 {
        lemma_value_sum_nonnegative(p, s.drop_last(), k);
    }
}

proof fn lemma_area_sum_nonnegative(p: Puzzle, s: Seq<BlockInPuzzle>, k: int)
    ensures
        p.area_sum(s, k) >= 0,
    decreases s.len(),
{
    if s.len() > 0 {
        lemma_area_sum_nonnegative(p, s.drop_last(), k);
        let f = p.block(s.last()).faces[k];
        assert(f.long * f.short >= 0) by (nonlinear_arith);
    }
}

/// A higher rotation of the same block, or any rotation of a higher block,
/// has a higher code.
proof fn lemma_code_order(p: Puzzle, b0: usize, r0: usize, b1: usize, r1: usize)
    requires
        b0 < p.blocks.len(),
        r0 < p.blocks[b0 as int].len(),
        (b1 == b0 && r1 > r0) || b1 > b0,
    ensures
        p.code(BlockInPuzzle { block_id: b1, rot_id: r1, position: 0 }) > p.code(
            BlockInPuzzle { block_id: b0, rot_id: r0, position: 0 },
        ),
        forall|q0: usize, q1: usize|
            p.code(BlockInPuzzle { block_id: b1, rot_id: r1, position: q1 }) > p.code(
                BlockInPuzzle { block_id: b0, rot_id: r0, position: q0 },
            ),
{
    lemma_max_len(p.blocks, b0 as int);
    let m = p.rot_bound() as int;
    assert(b1 * m + r1 > b0 * m + r0) by (nonlinear_arith)
        requires
            r0 < m,
            (b1 == b0 && r1 > r0) || b1 > b0,
            r1 >= 0,
    ;
}

/// Every code of the placed blocks is below the number of choices, and at
/// most one block of each kind is placed.
proof fn lemma_valid_path(s: Solver)
    requires
        s.wf(),
    ensures
        valid_path(s.puzzle().codes(s.stack@), s.puzzle().choice_count(), s.puzzle().blocks.len()),
{
    let p = s.puzzle();
    let codes = p.codes(s.stack@);
    assert forall|i: int| 0 <= i < codes.len() implies #[trigger] codes[i] < p.choice_count() by {
        let e = s.stack@[i];
        assert(p.valid_ids(e));
        lemma_max_len(p.blocks, e.block_id as int);
        let m = p.rot_bound() as int;
        let n = p.blocks.len() as int;
        assert(e.block_id * m + e.rot_id < n * m) by (nonlinear_arith)
            requires
                e.block_id < n,
                e.rot_id < m,
        ;
    }
}

/// Every reachable search state has its rank below the size of the search
/// tree.
proof fn lemma_search_rank_bound(s: Solver)
    requires
        s.wf(),
    ensures
        0 <= s.search_rank() < s.puzzle().search_size(),
{
    lemma_valid_path(s);
    lemma_rank_bound(s.puzzle().codes(s.stack@), s.puzzle().choice_count(), s.puzzle().blocks.len());
}

/// Backtracking `j` levels and moving sideways there raises the search rank.
proof fn lemma_sideways_rank(p: Puzzle, q: Seq<BlockInPuzzle>, t: Seq<BlockInPuzzle>, j: int)
    requires
        valid_path(p.codes(q), p.choice_count(), p.blocks.len()),
        0 <= j < q.len(),
        t.len() == j + 1,
        t.drop_last() == q.take(j),
        p.code(t.last()) > p.code(q[j]),
    ensures
        p.search_rank(t) > p.search_rank(q),
{
    let cq = p.codes(q);
    assert(t =~= q.take(j).push(t.last()));
    assert(p.codes(t) =~= cq.take(j).push(p.code(t.last())));
    lemma_rank_sideways(cq, j, p.code(t.last()), p.choice_count(), p.blocks.len());
}

impl Solver {
    pub fn block_count(&self) -> (r: usize)
        ensures
            r == self.block_count_spec(),
    {
        self.rot_blocks.len()
    }

    /// True once the search is exhausted.
    pub fn done(&self) -> (r: bool)
        ensures
            r == self.done,
    {
        self.done
    }

    /// Places block 0 in rotation 0 at cell 0, which fixes the puzzle's
    /// orientation.
    fn init(&mut self) -> (r: bool)
        requires
            old(self).wf(),
            old(self).rem@.contains(0),
            old(self).rot_blocks@.len() > 0,
            old(self).rot_blocks@[0]@.len() > 0,
            !old(self).done,
        ensures
            final(self).wf(),
            final(self).same_puzzle(old(self)),
            final(self).done == old(self).done,
            r == old(self).fits(BlockInPuzzle { block_id: 0, rot_id: 0, position: old(self).position }),
            !r ==> *final(self) == *old(self),
            r ==> final(self).stack@ == old(self).stack@.push(
                BlockInPuzzle { block_id: 0, rot_id: 0, position: old(self).position },
            ),
            r ==> Solver::placement_step(
                old(self),
                BlockInPuzzle { block_id: 0, rot_id: 0, position: old(self).position },
                final(self),
            ),
            r && final(self).position == final(self).state@.len() ==> forall|s: Seq<BlockInPuzzle>|
                #[trigger] final(self).has_solution(s) <==> old(self).has_solution(s) || s
                    == snapshot(final(self).state@),
            !(r && final(self).position == final(self).state@.len()) ==> final(self).solutions@
                == old(self).solutions@,
            final(self).solutions@.len() <= old(self).solutions@.len() + 1,
    {
        self.deeper(0, 0)
    }

    /// Advances the search by one edge: places one more block if some block
    /// fits; otherwise takes blocks off until one can be replaced by the
    /// next candidate. Returns false, and marks the search done, when the
    /// stack empties without finding such a move.
    ///
    /// After every call either a move was made (the result is true and the
    /// search went strictly forward in preorder) or the search is done.
    pub fn step(&mut self) -> (r: bool)
        requires
            old(self).wf(),
        ensures
            final(self).wf(),
            final(self).same_puzzle(old(self)),
            r || final(self).done,
            r == !final(self).done,
            r ==> final(self).search_rank() > old(self).search_rank(),
            !r ==> final(self).stack@.len() == 0,
            forall|s: Seq<BlockInPuzzle>| #[trigger]
                old(self).has_solution(s) ==> final(self).has_solution(s),
            // going deeper: when a remaining block fits, the first one in
            // (block, rotation) order is placed
            !old(self).done && (exists|b: int, rot: int| old(self).deeper_candidate(b, rot))
                ==> exists|b: int, rot: int|
                {
                    &&& #[trigger] old(self).deeper_candidate(b, rot)
                    &&& Solver::placement_step(
                        old(self),
                        BlockInPuzzle {
                            block_id: b as usize,
                            rot_id: rot as usize,
                            position: old(self).position,
                        },
                        final(self),
                    )
                    &&& forall|b2: int, r2: int|
                        Solver::tried_before(b2, r2, b, rot) ==> !#[trigger] old(
                            self,
                        ).deeper_candidate(b2, r2)
                },
            // otherwise: moving sideways, after backtracking as far as needed
            !old(self).done && !(exists|b: int, rot: int| old(self).deeper_candidate(b, rot))
                ==> final(self).stack@.len() <= old(self).stack@.len(),
            // a sideways move keeps the stack below the level it replaces,
            // and puts a later candidate at that level
            !old(self).done && !(exists|b: int, rot: int| old(self).deeper_candidate(b, rot)) && r
                ==> {
                &&& 1 <= final(self).stack@.len() <= old(self).stack@.len()
                &&& final(self).stack@.drop_last() == old(self).stack@.take(
                    final(self).stack@.len() - 1,
                )
                &&& old(self).puzzle().code(final(self).stack@.last()) > old(self).puzzle().code(
                    old(self).stack@[final(self).stack@.len() - 1],
                )
            },
            !r ==> final(self).solutions@ == old(self).solutions@,
            // a placement that fills the puzzle is among the solutions
            r && final(self).position == final(self).state@.len() ==> final(self).has_solution(
                snapshot(final(self).state@),
            ),
            // a solution found by this call is the placement it reaches,
            // filling the puzzle
            forall|s: Seq<BlockInPuzzle>| #[trigger]
                final(self).has_solution(s) ==> old(self).has_solution(s) || (s == snapshot(
                    final(self).state@,
                ) && final(self).position == final(self).state@.len()),
    {
        if self.done {
            // the search is exhausted already
            return false;
        }
        let ghost p = self.puzzle();
        let ghost s0 = *self;
        proof {
            lemma_valid_path(s0);
        }
        if !self.rem.is_empty() {
            // go deeper: the remaining blocks in ascending order, each in
            // every rotation
            let n = self.rot_blocks.len();
            let mut b: usize = 0;
            while b < n
                invariant
                    *self == s0,
                    s0 == *old(self),
                    s0.wf(),
                    p == s0.puzzle(),
                    n == s0.rot_blocks@.len(),
                    !s0.done,
                    b <= n,
                    forall|b2: int, r2: int|
                        Solver::tried_before(b2, r2, b as int, 0) ==> !#[trigger] s0.deeper_candidate(
                            b2,
                            r2,
                        ),
                decreases n - b,
            {
                if self.rem.contains(&b) {
                    let mut rot: usize = 0;
                    while rot < self.rot_blocks[b].len()
                        invariant
                            *self == s0,
                            s0 == *old(self),
                            s0.wf(),
                            p == s0.puzzle(),
                            b < n == s0.rot_blocks@.len(),
                            s0.rem@.contains(b),
                            !s0.done,
                            forall|b2: int, r2: int|
                                Solver::tried_before(b2, r2, b as int, rot as int)
                                    ==> !#[trigger] s0.deeper_candidate(b2, r2),
                        decreases s0.rot_blocks@[b as int]@.len() - rot,
                    {
                        if self.deeper(b, rot) {
                            proof {
                                let e = BlockInPuzzle { block_id: b, rot_id: rot, position: s0.position };
                                assert(s0.deeper_candidate(b as int, rot as int));
                                assert(p.codes(self.stack@) =~= p.codes(s0.stack@).push(p.code(e)));
                                lemma_rank_push(
                                    p.codes(s0.stack@),
                                    p.code(e),
                                    p.choice_count(),
                                    p.blocks.len(),
                                );
                            }
                            return true;
                        }
                        rot += 1;
                    }
                }
                proof {
                    assert forall|b2: int, r2: int|
                        Solver::tried_before(b2, r2, b + 1, 0) implies !#[trigger] s0.deeper_candidate(
                        b2,
                        r2,
                    ) by {
                        if b2 == b && s0.deeper_candidate(b2, r2) {
                            assert(Solver::tried_before(b2, r2, b as int, s0.rot_blocks@[b as int]@.len() as int));
                        }
                    }
                }
                b += 1;
            }
            proof {
                assert forall|b2: int, r2: int| !#[trigger] s0.deeper_candidate(b2, r2) by {
                    if s0.deeper_candidate(b2, r2) {
                        assert(Solver::tried_before(b2, r2, n as int, 0));
                    }
                }
            }
        } else {
            proof {
                assert forall|b2: int, r2: int| !#[trigger] s0.deeper_candidate(b2, r2) by {
                    if s0.deeper_candidate(b2, r2) {
                        assert(s0.rem@.contains(b2 as usize));
                    }
                }
            }
        }
        // no block fits: move sideways, backtracking as far as needed
        while self.stack.len() > 0
            invariant
                self.wf(),
                self.same_puzzle(&s0),
                s0 == *old(self),
                p == s0.puzzle(),
                s0.wf(),
                !self.done,
                self.stack@.len() <= s0.stack@.len(),
                self.stack@ == s0.stack@.take(self.stack@.len() as int),
                valid_path(p.codes(s0.stack@), p.choice_count(), p.blocks.len()),
                forall|b2: int, r2: int| !#[trigger] s0.deeper_candidate(b2, r2),
                forall|s: Seq<BlockInPuzzle>| #[trigger]
                    s0.has_solution(s) ==> self.has_solution(s),
                self.solutions@ == s0.solutions@,
            decreases self.stack@.len(),
        {
            let ghost before = self.stack@;
            if self.move_sideway_or_backtrack() {
                proof {
                    let j = before.len() - 1;
                    assert(before[j] == s0.stack@[j]);
                    assert(before.drop_last() =~= s0.stack@.take(j));
                    lemma_sideways_rank(p, s0.stack@, self.stack@, j);
                    assert(self.stack@.drop_last() =~= s0.stack@.take(self.stack@.len() - 1));
                }
                return true;
            }
            proof {
                assert(self.stack@ =~= s0.stack@.take(self.stack@.len() as int));
            }
        }
        let ghost before = *self;
        self.done = true;
        proof {
            assert forall|s: Seq<BlockInPuzzle>| #[trigger]
                old(self).has_solution(s) implies self.has_solution(s) by {
                assert(before.has_solution(s));
                let i = choose|i: int|
                    0 <= i < before.solutions@.len() && (#[trigger] before.solutions@[i])@ == s;
                assert(self.solutions@[i]@ == s);
            }
        }
        false
    }

    /// Steps until a step completes a placement that fills the puzzle
    /// (true), or the search is exhausted (false). The completed placement
    /// is recorded, and it is the only solution the call adds.
    pub fn step_to_solution(&mut self) -> (r: bool)
        requires
            old(self).wf(),
        ensures
            final(self).wf(),
            final(self).same_puzzle(old(self)),
            r ==> final(self).position == final(self).state@.len(),
            r ==> final(self).has_solution(snapshot(final(self).state@)),
            !r ==> final(self).done && final(self).stack@.len() == 0,
            forall|s: Seq<BlockInPuzzle>| #[trigger]
                old(self).has_solution(s) ==> final(self).has_solution(s),
            forall|s: Seq<BlockInPuzzle>| #[trigger]
                final(self).has_solution(s) ==> old(self).has_solution(s) || (r && s == snapshot(
                    final(self).state@,
                )),
    {
        loop
            invariant
                self.wf(),
                self.same_puzzle(old(self)),
                forall|s: Seq<BlockInPuzzle>| #[trigger]
                    old(self).has_solution(s) ==> self.has_solution(s),
                forall|s: Seq<BlockInPuzzle>| #[trigger]
                    self.has_solution(s) ==> old(self).has_solution(s),
            decreases self.puzzle().search_size() - self.search_rank(),
        {
            proof {
                lemma_search_rank_bound(*self);
            }
            let ghost before = *self;
            if !self.step() {
                proof {
                    assert forall|s: Seq<BlockInPuzzle>| #[trigger]
                        self.has_solution(s) implies old(self).has_solution(s) by {
                        assert(before.has_solution(s));
                    }
                }
                return false;
            }
            proof {
                lemma_search_rank_bound(*self);
            }
            if self.position == self.state.len() {
                proof {
                    assert forall|s: Seq<BlockInPuzzle>| #[trigger]
                        self.has_solution(s) implies old(self).has_solution(s) || s == snapshot(
                        self.state@,
                    ) by {
                        if !(s == snapshot(self.state@)) {
                            assert(before.has_solution(s));
                        }
                    }
                }
                return true;
            }
            proof {
                assert forall|s: Seq<BlockInPuzzle>| #[trigger]
                    self.has_solution(s) implies old(self).has_solution(s) by {
                    assert(before.has_solution(s));
                }
            }
        }
    }

    /// The placed blocks, in placement order, each as its rotated block,
    /// its block id and the coordinates (x, y, z) of its low corner.
    pub fn stack(&self) -> (r: Vec<(Block, usize, usize, usize, usize)>)
        requires
            self.wf(),
        ensures
            r@.len() == self.stack@.len(),
            forall|i: int|
                0 <= i < r@.len() ==> {
                    let e = self.stack@[i];
                    let p = self.puzzle();
                    #[trigger] r@[i] == (
                        p.block(e),
                        e.block_id,
                        p.x_of(e.position as int) as usize,
                        p.y_of(e.position as int) as usize,
                        p.z_of(e.position as int) as usize,
                    )
                },
    {
        let h = self.puzzle_height;
        proof {
            lemma_slice_fits(h as int, self.puzzle_width as int, self.puzzle_depth as int);
        }
        let slice_area = h * self.puzzle_width;
        let mut r: Vec<(Block, usize, usize, usize, usize)> = Vec::new();
        let mut i: usize = 0;
        while i < self.stack.len()
            invariant
                self.wf(),
                slice_area == self.puzzle().h * self.puzzle().w,
                h == self.puzzle().h,
                i <= self.stack@.len(),
                r@.len() == i,
                forall|j: int|
                    0 <= j < i ==> {
                        let e = self.stack@[j];
                        let p = self.puzzle();
                        #[trigger] r@[j] == (
                            p.block(e),
                            e.block_id,
                            p.x_of(e.position as int) as usize,
                            p.y_of(e.position as int) as usize,
                            p.z_of(e.position as int) as usize,
                        )
                    },
            decreases self.stack@.len() - i,
        {
            let bip = self.stack[i];
            assert(self.puzzle().valid_ids(bip));
            let x = bip.position % h;
            let y = (bip.position % slice_area) / h;
            let z = bip.position / slice_area;
            r.push((self.rot_blocks[bip.block_id][bip.rot_id], bip.block_id, x, y, z));
            i += 1;
        }
        r
    }

    /// A solver for a cuboid of `puzzle_height` x `puzzle_width` x
    /// `puzzle_depth` cells, with the given rotations of each block, and the
    /// sum each outer face must reach (none for a geometric search). Block 0
    /// is placed in rotation 0 at cell 0 right away.
    ///
    /// A labeled search of a cuboid with three different dimensions limits
    /// its first placement to the first quarter of the block's rotations:
    /// the rotations that map such a cuboid onto itself are the half turns,
    /// and the first quarter of the list stands for the other rotations up
    /// to those. A cuboid with two equal dimensions has more symmetries than
    /// the half turns, and its search tries every rotation.
    pub fn new(
        puzzle_height: usize,
        puzzle_width: usize,
        puzzle_depth: usize,
        target: Option<u8>,
        rot_blocks: Vec<Vec<Block>>,
    ) -> (r: Solver)
        requires
            1 <= puzzle_height,
            1 <= puzzle_width,
            1 <= puzzle_depth,
            puzzle_height * puzzle_width * puzzle_depth <= usize::MAX,
            forall|b: int, k: int|
                0 <= b < rot_blocks@.len() && 0 <= k < rot_blocks@[b]@.len() ==> {
                    &&& 1 <= (#[trigger] rot_blocks@[b]@[k]).height
                    &&& 1 <= rot_blocks@[b]@[k].width
                    &&& 1 <= rot_blocks@[b]@[k].depth
                },
        ensures
            r.wf(),
            r.puzzle_height == puzzle_height,
            r.puzzle_width == puzzle_width,
            r.puzzle_depth == puzzle_depth,
            r.target == target,
            r.rot_blocks@ == rot_blocks@,
            !r.done,
            r.first_block_quarter == (target is Some && puzzle_height != puzzle_width
                && puzzle_height != puzzle_depth && puzzle_width != puzzle_depth),
            Solver::started(&r),
    {
        let quarter = target.is_some() && puzzle_height != puzzle_width && puzzle_height
            != puzzle_depth && puzzle_width != puzzle_depth;
        Solver::build(puzzle_height, puzzle_width, puzzle_depth, target, rot_blocks, quarter)
    }

    /// `r` is a search just started: from an empty start, block 0 in
    /// rotation 0 placed at cell 0 when it fits; left as it is otherwise.
    pub open spec fn started(r: &Solver) -> bool {
        &&& exists|s0: Solver|
            {
                &&& #[trigger] s0.is_empty_start()
                &&& s0.same_puzzle(r)
                &&& s0.wf()
                &&& if s0.rot_blocks@.len() > 0 && s0.rot_blocks@[0]@.len() > 0 && s0.fits(
                    BlockInPuzzle { block_id: 0, rot_id: 0, position: 0 },
                ) {
                    Solver::placement_step(
                        &s0,
                        BlockInPuzzle { block_id: 0, rot_id: 0, position: 0 },
                        r,
                    )
                } else {
                    *r == s0
                }
            }
        // no solution yet, unless that first block already fills the puzzle
        &&& r.solutions@.len() <= 1
        &&& forall|s: Seq<BlockInPuzzle>| #[trigger]
            r.has_solution(s) <==> (r.position == r.state@.len() && s == snapshot(r.state@))
    }

    fn build(
        puzzle_height: usize,
        puzzle_width: usize,
        puzzle_depth: usize,
        target: Option<u8>,
        rot_blocks: Vec<Vec<Block>>,
        first_block_quarter: bool,
    ) -> (r: Solver)
        requires
            1 <= puzzle_height,
            1 <= puzzle_width,
            1 <= puzzle_depth,
            puzzle_height * puzzle_width * puzzle_depth <= usize::MAX,
            forall|b: int, k: int|
                0 <= b < rot_blocks@.len() && 0 <= k < rot_blocks@[b]@.len() ==> {
                    &&& 1 <= (#[trigger] rot_blocks@[b]@[k]).height
                    &&& 1 <= rot_blocks@[b]@[k].width
                    &&& 1 <= rot_blocks@[b]@[k].depth
                },
        ensures
            r.wf(),
            r.puzzle_height == puzzle_height,
            r.puzzle_width == puzzle_width,
            r.puzzle_depth == puzzle_depth,
            r.target == target,
            r.rot_blocks@ == rot_blocks@,
            !r.done,
            r.first_block_quarter == first_block_quarter,
            Solver::started(&r),
    {
        proof {
            lemma_slice_fits(puzzle_height as int, puzzle_width as int, puzzle_depth as int);
        }
        let volume = puzzle_height * puzzle_width * puzzle_depth;
        let block_count = rot_blocks.len();
        let mut rem: HashSet<usize> = HashSet::new();
        let mut b: usize = 0;
        while b < block_count
            invariant
                b <= block_count,
                rem@ == Set::new(|x: usize| x < b),
                rem@.finite(),
                rem@.len() == b,
            decreases block_count - b,
        {
            proof {
                assert(!rem@.contains(b));
            }
            rem.insert(b);
            b += 1;
            proof {
                assert(rem@ =~= Set::new(|x: usize| x < b));
            }
        }
        let mut state: Vec<Option<BlockInPuzzle>> = Vec::new();
        let mut c: usize = 0;
        while c < volume
            invariant
                c <= volume,
                state@.len() == c,
                forall|c2: int| 0 <= c2 < c ==> #[trigger] state@[c2] is None,
            decreases volume - c,
        {
            state.push(None);
            c += 1;
        }
        let hw = puzzle_height * puzzle_width;
        let hd = puzzle_height * puzzle_depth;
        let wd = puzzle_width * puzzle_depth;
        let mut solver = Solver {
            puzzle_height,
            puzzle_width,
            puzzle_depth,
            target,
            rot_blocks,
            stack: Vec::new(),
            rem,
            position: 0,
            state,
            face_sums: [0; 6],
            face_free_areas: [
                hw as i128,
                hw as i128,
                hd as i128,
                hd as i128,
                wd as i128,
                wd as i128,
            ],
            done: false,
            first_block_quarter,
            solutions: Vec::new(),
        };
        proof {
            let p = solver.puzzle();
            assert(p.blocks.len() == block_count);
            assert(forall|k: int| 0 <= k < 6 ==> solver.face_sums@[k] == 0);
            assert(solver.face_free_areas@[0] == p.face_total(0));
            assert(solver.face_free_areas@[1] == p.face_total(1));
            assert(solver.face_free_areas@[2] == p.face_total(2));
            assert(solver.face_free_areas@[3] == p.face_total(3));
            assert(solver.face_free_areas@[4] == p.face_total(4));
            assert(solver.face_free_areas@[5] == p.face_total(5));
            assert(solver.state@ =~= p.cells_of(solver.stack@));
            assert(solver.wf());
            assert(solver.is_empty_start());
        }
        let ghost s0 = solver;
        if block_count > 0 && solver.rot_blocks[0].len() > 0 {
            proof {
                assert(solver.rem@.contains(0));
            }
            solver.init();
        }
        assert(s0.same_puzzle(&solver));
        solver
    }
}

/// The solver of the 12x11x9 puzzle with its nine blocks. With
/// `shape_only`, only the shapes matter and each block takes its shape
/// rotations; otherwise each block takes all 24 rotations and every outer
/// face must sum to 100.
pub fn solver(shape_only: bool) -> (r: Solver)
    ensures
        r.wf(),
        r.puzzle_height == HEIGHT,
        r.puzzle_width == WIDTH,
        r.puzzle_depth == DEPTH,
        r.target == if shape_only {
            None
        } else {
            Some(TARGET_SUM)
        },
        r.rot_blocks@.len() == BLOCK_COUNT,
        forall|b: int|
            0 <= b < BLOCK_COUNT ==> {
                let rots = (#[trigger] r.rot_blocks@[b])@;
                if shape_only {
                    crate::rotation::views(rots) == crate::rotation::first_of_each_shape(
                        crate::rotation::face_up_rotations(crate::common::inventory_block_view(b)),
                    )
                } else {
                    &&& rots.len() == 24
                    &&& forall|n: int|
                        0 <= n < 24 ==> (#[trigger] rots[n])@ == crate::rotation::rotated_by(
                            crate::rotation::rotation_turns(n),
                            crate::common::inventory_block_view(b),
                        )
                }
            },
        !r.done,
        r.first_block_quarter == !shape_only,
        Solver::started(&r),
{
    let blocks = crate::common::inventory();
    let mut rot_blocks: Vec<Vec<Block>> = Vec::new();
    let mut i: usize = 0;
    while i < BLOCK_COUNT
        invariant
            i <= BLOCK_COUNT,
            blocks@.len() == BLOCK_COUNT,
            forall|j: int| 0 <= j < BLOCK_COUNT ==> (#[trigger] blocks@[j]).wf(),
            forall|j: int|
                0 <= j < BLOCK_COUNT ==> (#[trigger] blocks@[j])@
                    == crate::common::inventory_block_view(j),
            forall|j: int|
                0 <= j < BLOCK_COUNT ==> 1 <= (#[trigger] blocks@[j]).height && 1 <= blocks@[j].width
                    && 1 <= blocks@[j].depth,
            rot_blocks@.len() == i,
            forall|b: int|
                0 <= b < i ==> {
                    let rots = (#[trigger] rot_blocks@[b])@;
                    &&& forall|k: int|
                        0 <= k < rots.len() ==> {
                            &&& 1 <= (#[trigger] rots[k]).height
                            &&& 1 <= rots[k].width
                            &&& 1 <= rots[k].depth
                        }
                    &&& if shape_only {
                        crate::rotation::views(rots) == crate::rotation::first_of_each_shape(
                            crate::rotation::face_up_rotations(crate::common::inventory_block_view(b)),
                        )
                    } else {
                        &&& rots.len() == 24
                        &&& forall|n: int|
                            0 <= n < 24 ==> (#[trigger] rots[n])@ == crate::rotation::rotated_by(
                                crate::rotation::rotation_turns(n),
                                crate::common::inventory_block_view(b),
                            )
                    }
                },
        decreases BLOCK_COUNT - i,
    {
        let rots = if shape_only {
            shape_rots(&blocks[i])
        } else {
            all_rots(&blocks[i])
        };
        proof {
            let v = blocks@[i as int]@;
            assert forall|k: int| 0 <= k < rots@.len() implies {
                &&& 1 <= (#[trigger] rots@[k]).height
                &&& 1 <= rots@[k].width
                &&& 1 <= rots@[k].depth
            } by {
                if shape_only {
                    let n = choose|n: int|
                        0 <= n < 6 && rots@[k]@ == crate::rotation::rotated_by(
                            crate::rotation::face_up_turns(n),
                            v,
                        );
                    crate::rotation::lemma_rotated_by_dims(crate::rotation::face_up_turns(n), v);
                } else {
                    crate::rotation::lemma_rotated_by_dims(crate::rotation::rotation_turns(k), v);
                }
            }
        }
        let ghost before = rot_blocks@;
        rot_blocks.push(rots);
        proof {
            assert(rot_blocks@[i as int] == rots);
            assert(forall|b: int| 0 <= b < i ==> rot_blocks@[b] == before[b]);
        }
        i += 1;
    }
    let target = if shape_only {
        None
    } else {
        Some(TARGET_SUM)
    };
    // in the labeled search, the first block takes only the first quarter of
    // its rotations: the others give the same solutions turned as a whole
    Solver::build(HEIGHT as usize, WIDTH as usize, DEPTH as usize, target, rot_blocks, !shape_only)
}

/// The text of one decimal digit.
pub open spec fn digit_text(d: int) -> Seq<char> {
    if d == 0 {
        "0"@
    } else if d == 1 {
        "1"@
    } else if d == 2 {
        "2"@
    } else if d == 3 {
        "3"@
    } else if d == 4 {
        "4"@
    } else if d == 5 {
        "5"@
    } else if d == 6 {
        "6"@
    } else if d == 7 {
        "7"@
    } else if d == 8 {
        "8"@
    } else {
        "9"@
    }
}

/// A face value in decimal, padded with zeros to two digits at least.
pub open spec fn padded(v: u8) -> Seq<char> {
    if v < 10 {
        "0"@ + digit_text(v as int)
    } else if v < 100 {
        digit_text(v as int / 10) + digit_text(v as int % 10)
    } else {
        digit_text(v as int / 100) + digit_text((v as int / 10) % 10) + digit_text(v as int % 10)
    }
}

/// What cell `c` shows on the outer face `dir_at(k)`: the value of the
/// face of its block looking that way, then a space; an empty cell shows
/// the space alone.
pub open spec fn cell_text(p: Puzzle, state: Seq<Option<BlockInPuzzle>>, k: int, c: int) -> Seq<
    char,
> {
    match state[c] {
        Some(e) => padded(p.block(e).faces[k].value) + " "@,
        None => " "@,
    }
}

/// Rows and columns of the grid of the outer face `dir_at(k)`.
pub open spec fn grid_rows(p: Puzzle, k: int) -> int {
    if k < 4 {
        p.h
    } else {
        p.d
    }
}

pub open spec fn grid_cols(p: Puzzle, k: int) -> int {
    if k < 2 {
        p.w
    } else if k < 4 {
        p.d
    } else {
        p.w
    }
}

/// The cell shown at row `r`, column `q` of the grid of the outer face
/// `dir_at(k)`, as seen from outside the puzzle.
pub open spec fn grid_cell(p: Puzzle, k: int, r: int, q: int) -> int {
    let h = p.h;
    let slice_area = p.h * p.w;
    if k == 0 {
        q * h + (h - 1 - r)
    } else if k == 1 {
        (p.d - 1) * slice_area + (p.w - 1 - q) * h + (h - 1 - r)
    } else if k == 2 {
        (p.d - 1 - q) * slice_area + (h - 1 - r)
    } else if k == 3 {
        q * slice_area + (p.w - 1) * h + (h - 1 - r)
    } else if k == 4 {
        (p.d - 1 - r) * slice_area + q * h + h - 1
    } else {
        r * slice_area + q * h
    }
}

/// The first `n` cells of row `r` of the grid of the outer face `dir_at(k)`.
pub open spec fn row_text(p: Puzzle, state: Seq<Option<BlockInPuzzle>>, k: int, r: int, n: int) -> Seq<
    char,
>
    decreases n,
{
    if n <= 0 {
        seq![]
    } else {
        row_text(p, state, k, r, n - 1) + cell_text(p, state, k, grid_cell(p, k, r, n - 1))
    }
}

/// The first `n` rows of the grid of the outer face `dir_at(k)`, each ended
/// by a line break.
pub open spec fn grid_text(p: Puzzle, state: Seq<Option<BlockInPuzzle>>, k: int, n: int) -> Seq<
    char,
>
    decreases n,
{
    if n <= 0 {
        seq![]
    } else {
        grid_text(p, state, k, n - 1) + row_text(p, state, k, n - 1, grid_cols(p, k)) + "\n"@
    }
}

pub open spec fn face_title(k: int) -> Seq<char> {
    if k == 0 {
        "Front:\n"@
    } else if k == 1 {
        "Back:\n"@
    } else if k == 2 {
        "Left:\n"@
    } else if k == 3 {
        "Right:\n"@
    } else if k == 4 {
        "Top:\n"@
    } else {
        "Bottom:\n"@
    }
}

/// The first `n` outer faces, each as its title and its grid.
pub open spec fn faces_text(p: Puzzle, state: Seq<Option<BlockInPuzzle>>, n: int) -> Seq<char>
    decreases n,
{
    if n <= 0 {
        seq![]
    } else {
        faces_text(p, state, n - 1) + face_title(n - 1) + grid_text(p, state, n - 1, grid_rows(p, n - 1))
    }
}

/// The text of a placement: the six outer faces in the order Front, Back,
/// Left, Right, Top, Bottom.
pub open spec fn state_text(p: Puzzle, state: Seq<Option<BlockInPuzzle>>) -> Seq<char> {
    faces_text(p, state, 6)
}

fn digit_str(d: u8) -> (r: &'static str)
    requires
        d < 10,
    ensures
        r@ == digit_text(d as int),
{
    if d == 0 {
        "0"
    } else if d == 1 {
        "1"
    } else if d == 2 {
        "2"
    } else if d == 3 {
        "3"
    } else if d == 4 {
        "4"
    } else if d == 5 {
        "5"
    } else if d == 6 {
        "6"
    } else if d == 7 {
        "7"
    } else if d == 8 {
        "8"
    } else {
        "9"
    }
}

fn append_padded(text: &mut String, v: u8)
    ensures
        final(text)@ == old(text)@ + padded(v),
{
    if v < 10 {
        text.append("0");
        text.append(digit_str(v));
    } else if v < 100 {
        text.append(digit_str(v / 10));
        text.append(digit_str(v % 10));
    } else {
        text.append(digit_str(v / 100));
        text.append(digit_str((v / 10) % 10));
        text.append(digit_str(v % 10));
    }
}

fn face_title_str(k: usize) -> (r: &'static str)
    requires
        k < 6,
    ensures
        r@ == face_title(k as int),
{
    if k == 0 {
        "Front:\n"
    } else if k == 1 {
        "Back:\n"
    } else if k == 2 {
        "Left:\n"
    } else if k == 3 {
        "Right:\n"
    } else if k == 4 {
        "Top:\n"
    } else {
        "Bottom:\n"
    }
}

/// The cells of every grid lie inside the puzzle.
proof fn lemma_grid_cell_bounds(p: Puzzle, k: int, r: int, q: int)
    requires
        1 <= p.h,
        1 <= p.w,
        1 <= p.d,
        0 <= k < 6,
        0 <= r < grid_rows(p, k),
        0 <= q < grid_cols(p, k),
    ensures
        0 <= grid_cell(p, k, r, q) < p.volume(),
{
    let h = p.h;
    let w = p.w;
    let d = p.d;
    let s = h * w;
    assert(p.volume() == s * d) by (nonlinear_arith)
        requires
            s == h * w,
            p.volume() == h * w * d,
    ;
    assert(0 <= s) by (nonlinear_arith)
        requires
            s == h * w,
            h >= 1,
            w >= 1,
    ;
    // every cell is z * s + y * h + x with x < h, y < w, z < d
    assert forall|x: int, y: int, z: int|
        0 <= x < h && 0 <= y < w && 0 <= z < d implies 0 <= #[trigger] (z * s + y * h + x) < s
        * d by {
        assert(0 <= z * s + y * h + x < s * d) by (nonlinear_arith)
            requires
                0 <= x < h,
                0 <= y < w,
                0 <= z < d,
                s == h * w,
        ;
    }
    if k == 0 {
        assert(grid_cell(p, k, r, q) == 0 * s + q * h + (h - 1 - r));
    } else if k == 1 {
        assert(grid_cell(p, k, r, q) == (d - 1) * s + (w - 1 - q) * h + (h - 1 - r));
    } else if k == 2 {
        assert(grid_cell(p, k, r, q) == (d - 1 - q) * s + 0 * h + (h - 1 - r));
    } else if k == 3 {
        assert(grid_cell(p, k, r, q) == q * s + (w - 1) * h + (h - 1 - r));
    } else if k == 4 {
        assert(grid_cell(p, k, r, q) == (d - 1 - r) * s + q * h + (h - 1));
    } else {
        assert(grid_cell(p, k, r, q) == r * s + q * h + 0);
    }
}

/// The text of the placement `state` of a puzzle of `puzzle_height` x
/// `puzzle_width` x `puzzle_depth` cells: for each outer face, its title
/// and the grid of the values that its cells show, two digits at least
/// each, as seen from outside.
pub fn print_state(
    puzzle_height: usize,
    puzzle_width: usize,
    puzzle_depth: usize,
    rot_blocks: &Vec<Vec<Block>>,
    state: &Vec<Option<BlockInPuzzle>>,
) -> (r: String)
    requires
        1 <= puzzle_height,
        1 <= puzzle_width,
        1 <= puzzle_depth,
        puzzle_height * puzzle_width * puzzle_depth <= usize::MAX,
        state@.len() == puzzle_height * puzzle_width * puzzle_depth,
        forall|c: int|
            0 <= c < state@.len() ==> (#[trigger] state@[c] matches Some(e) ==> e.block_id
                < rot_blocks@.len() && e.rot_id < rot_blocks@[e.block_id as int]@.len()),
    ensures
        r@ == state_text(
            Puzzle {
                h: puzzle_height as int,
                w: puzzle_width as int,
                d: puzzle_depth as int,
                blocks: rot_blocks@.map_values(|v: Vec<Block>| v@),
            },
            state@,
        ),
{
    let ghost p = Puzzle {
        h: puzzle_height as int,
        w: puzzle_width as int,
        d: puzzle_depth as int,
        blocks: rot_blocks@.map_values(|v: Vec<Block>| v@),
    };
    proof {
        lemma_slice_fits(p.h, p.w, p.d);
    }
    let h = puzzle_height;
    let slice_area = puzzle_height * puzzle_width;
    let mut result = String::new();
    let mut k: usize = 0;
    while k < 6
        invariant
            k <= 6,
            p.h == h,
            h == puzzle_height,
            1 <= p.h && 1 <= p.w && 1 <= p.d,
            p.w == puzzle_width,
            p.d == puzzle_depth,
            slice_area == p.h * p.w,
            p.volume() <= usize::MAX,
            state@.len() == p.volume(),
            p.blocks == rot_blocks@.map_values(|v: Vec<Block>| v@),
            forall|c: int|
                0 <= c < state@.len() ==> (#[trigger] state@[c] matches Some(e) ==> e.block_id
                    < rot_blocks@.len() && e.rot_id < rot_blocks@[e.block_id as int]@.len()),
            result@ == faces_text(p, state@, k as int),
        decreases 6 - k,
    {
        result.append(face_title_str(k));
        let rows = if k < 4 {
            puzzle_height
        } else {
            puzzle_depth
        };
        let cols = if k < 2 {
            puzzle_width
        } else if k < 4 {
            puzzle_depth
        } else {
            puzzle_width
        };
        let ghost before = result@;
        assert(rows == grid_rows(p, k as int));
        assert(cols == grid_cols(p, k as int));
        let mut r: usize = 0;
        while r < rows
            invariant
                k < 6,
                r <= rows,
                rows == grid_rows(p, k as int),
                cols == grid_cols(p, k as int),
                p.h == h,
                h == puzzle_height,
            h == puzzle_height,
                1 <= p.h && 1 <= p.w && 1 <= p.d,
                p.w == puzzle_width,
                p.d == puzzle_depth,
                slice_area == p.h * p.w,
                p.volume() <= usize::MAX,
                state@.len() == p.volume(),
                p.blocks == rot_blocks@.map_values(|v: Vec<Block>| v@),
                forall|c: int|
                    0 <= c < state@.len() ==> (#[trigger] state@[c] matches Some(e) ==> e.block_id
                        < rot_blocks@.len() && e.rot_id < rot_blocks@[e.block_id as int]@.len()),
                result@ == before + grid_text(p, state@, k as int, r as int),
            decreases rows - r,
        {
            let ghost row_start = result@;
            let mut q: usize = 0;
            while q < cols
                invariant
                    k < 6,
                    r < rows,
                    q <= cols,
                    rows == grid_rows(p, k as int),
                    cols == grid_cols(p, k as int),
                    p.h == h,
                    h == puzzle_height,
                h == puzzle_height,
            h == puzzle_height,
                    1 <= p.h && 1 <= p.w && 1 <= p.d,
                    p.w == puzzle_width,
                    p.d == puzzle_depth,
                    slice_area == p.h * p.w,
                    p.volume() <= usize::MAX,
                    state@.len() == p.volume(),
                    p.blocks == rot_blocks@.map_values(|v: Vec<Block>| v@),
                    forall|c: int|
                        0 <= c < state@.len() ==> (#[trigger] state@[c] matches Some(e)
                            ==> e.block_id < rot_blocks@.len() && e.rot_id < rot_blocks@[e.block_id as int]@.len()),
                    result@ == row_start + row_text(p, state@, k as int, r as int, q as int),
                decreases cols - q,
            {
                proof {
                    lemma_grid_cell_bounds(p, k as int, r as int, q as int);
                }
                let idx = if k == 0 {
                    q * h + (h - 1 - r)
                } else if k == 1 {
                    (puzzle_depth - 1) * slice_area + (puzzle_width - 1 - q) * h + (h - 1 - r)
                } else if k == 2 {
                    (puzzle_depth - 1 - q) * slice_area + (h - 1 - r)
                } else if k == 3 {
                    q * slice_area + (puzzle_width - 1) * h + (h - 1 - r)
                } else if k == 4 {
                    (puzzle_depth - 1 - r) * slice_area + q * h + h - 1
                } else {
                    r * slice_area + q * h
                };
                assert(idx == grid_cell(p, k as int, r as int, q as int));
                let ghost cell_start = result@;
                match state[idx] {
                    Some(b) => {
                        let v = rot_blocks[b.block_id][b.rot_id].faces[k].value;
                        append_padded(&mut result, v);
                        result.append(" ");
                    },
                    None => {
                        result.append(" ");
                    },
                }
                proof {
                    assert(result@ == cell_start + cell_text(
                        p,
                        state@,
                        k as int,
                        idx as int,
                    ));
                }
                q += 1;
            }
            result.append("\n");
            r += 1;
        }
        k += 1;
    }
    result
}

impl Solver {
    /// The text of the current cells (see `print_state`).
    pub fn print_state(&self) -> (r: String)
        requires
            self.wf(),
        ensures
            r@ == state_text(self.puzzle(), self.state@),
    {
        proof {
            self.lemma_cells_valid();
        }
        print_state(
            self.puzzle_height,
            self.puzzle_width,
            self.puzzle_depth,
            &self.rot_blocks,
            &self.state,
        )
    }

    /// Every filled cell names one of the blocks' rotations.
    proof fn lemma_cells_valid(&self)
        requires
            self.wf(),
        ensures
            forall|c: int|
                0 <= c < self.state@.len() ==> (#[trigger] self.state@[c] matches Some(e)
                    ==> e.block_id < self.rot_blocks@.len() && e.rot_id
                    < self.rot_blocks@[e.block_id as int]@.len()),
    {
        let p = self.puzzle();
        assert forall|c: int| 0 <= c < self.state@.len() implies (#[trigger] self.state@[c] matches Some(
            e,
        ) ==> e.block_id < self.rot_blocks@.len() && e.rot_id
            < self.rot_blocks@[e.block_id as int]@.len()) by {
            if let Some(e) = self.state@[c] {
                assert(p.valid_ids(e));
            }
        }
    }
}

/// A complete placement as cells: every cell filled.
pub open spec fn filled(s: Seq<BlockInPuzzle>) -> Seq<Option<BlockInPuzzle>> {
    s.map_values(|e: BlockInPuzzle| Some(e))
}

impl Solver {
    /// The text of each solution found so far (see `print_state`).
    pub fn solutions(&self) -> (r: Vec<String>)
        requires
            self.wf(),
        ensures
            r@.len() == self.solutions@.len(),
            forall|i: int|
                0 <= i < r@.len() ==> (#[trigger] r@[i])@ == state_text(
                    self.puzzle(),
                    filled(self.solutions@[i]@),
                ),
    {
        let ghost p = self.puzzle();
        let mut r: Vec<String> = Vec::new();
        let mut i: usize = 0;
        while i < self.solutions.len()
            invariant
                self.wf(),
                p == self.puzzle(),
                i <= self.solutions@.len(),
                r@.len() == i,
                forall|j: int|
                    0 <= j < i ==> (#[trigger] r@[j])@ == state_text(p, filled(self.solutions@[j]@)),
            decreases self.solutions@.len() - i,
        {
            let sol = &self.solutions[i];
            let mut cells: Vec<Option<BlockInPuzzle>> = Vec::new();
            let mut c: usize = 0;
            while c < sol.len()
                invariant
                    c <= sol@.len(),
                    cells@ =~= filled(sol@).take(c as int),
                decreases sol@.len() - c,
            {
                cells.push(Some(sol[c]));
                c += 1;
            }
            proof {
                assert(filled(sol@).take(c as int) =~= filled(sol@));
                assert(sol@.len() == p.volume());
                assert forall|c2: int| 0 <= c2 < cells@.len() implies (
                #[trigger] cells@[c2] matches Some(e) ==> e.block_id < self.rot_blocks@.len()
                    && e.rot_id < self.rot_blocks@[e.block_id as int]@.len()) by {
                    assert(p.valid_ids(sol@[c2]));
                }
                lemma_slice_fits(p.h, p.w, p.d);
            }
            let text = print_state(
                self.puzzle_height,
                self.puzzle_width,
                self.puzzle_depth,
                &self.rot_blocks,
                &cells,
            );
            r.push(text);
            i += 1;
        }
        r
    }
}

/// Every block is either on the stack or among the blocks still to place:
/// the two are disjoint, together hold exactly the ids below the block
/// count, and their sizes add up to it.
pub proof fn lemma_stack_and_rem_count(s: &Solver)
    requires
        s.wf(),
    ensures
        s.stack@.len() + s.rem@.len() == s.block_count_spec(),
        forall|b: usize|
            (b < s.block_count_spec()) <==> (#[trigger] s.rem@.contains(b) || s.placed_block(b)),
        forall|b: usize| !(#[trigger] s.rem@.contains(b) && s.placed_block(b)),
{
    let p = s.puzzle();
    assert forall|b: usize|
        (b < s.block_count_spec()) <==> (#[trigger] s.rem@.contains(b) || s.placed_block(b)) by {
        if s.placed_block(b) {
            let i = choose|i: int| 0 <= i < s.stack@.len() && (#[trigger] s.stack@[i]).block_id == b;
            assert(p.valid_ids(s.stack@[i]));
        }
    }
    assert forall|b: usize| !(#[trigger] s.rem@.contains(b) && s.placed_block(b)) by {
        if s.placed_block(b) {
            let i = choose|i: int| 0 <= i < s.stack@.len() && (#[trigger] s.stack@[i]).block_id == b;
            assert(!s.rem@.contains(s.stack@[i].block_id));
        }
    }
}

/// The running sum of each outer face is the sum of the values of the block
/// faces that touch it.
pub proof fn lemma_face_sums_match(s: &Solver, k: int)
    requires
        s.wf(),
        0 <= k < 6,
    ensures
        s.face_sums@[k] == s.puzzle().value_sum(s.stack@, k),
{
}

/// The free area of each outer face and the areas of the block faces that
/// touch it add up to the face's whole area.
pub proof fn lemma_face_free_areas_match(s: &Solver, k: int)
    requires
        s.wf(),
        0 <= k < 6,
    ensures
        s.face_free_areas@[k] + s.puzzle().area_sum(s.stack@, k) == s.puzzle().face_total(k),
{
    assert(s.face_sums@[k] == s.puzzle().value_sum(s.stack@, k));
}

/// Every recorded solution is a packing of the puzzle: each cell holds a
/// placed block whose box covers it, and a block id names one placement.
pub proof fn lemma_solutions_are_packings(s: &Solver, i: int)
    requires
        s.wf(),
        0 <= i < s.solutions@.len(),
    ensures
        s.puzzle().is_packing(s.solutions@[i]@),
{
}

/// Each filled cell holds a placed block whose box covers it, and an empty
/// cell lies in no placed block's box.
pub proof fn lemma_cells_hold_placed_blocks(s: &Solver, c: int)
    requires
        s.wf(),
        0 <= c < s.state@.len(),
    ensures
        s.state@[c] matches Some(e) ==> exists|i: int|
            0 <= i < s.stack@.len() && s.stack@[i] == e && #[trigger] s.puzzle().covers(
                s.stack@[i],
                c,
            ),
        s.state@[c] is None ==> forall|i: int|
            0 <= i < s.stack@.len() ==> !#[trigger] s.puzzle().covers(s.stack@[i], c),
{
    lemma_cells_of(s.puzzle(), s.stack@, c);
}

/// The next position is the lowest empty cell: every cell before it is
/// filled, and it is empty itself (unless the puzzle is full).
pub proof fn lemma_position_is_lowest_empty(s: &Solver)
    requires
        s.wf(),
    ensures
        s.position <= s.puzzle().volume(),
        forall|c: int| 0 <= c < s.position ==> #[trigger] s.state@[c] is Some,
        s.position < s.puzzle().volume() ==> s.state@[s.position as int] is None,
{
}

} // verus!
