use crate::search::{lemma_rank_bound, lemma_rank_push, lemma_rank_sideways, rank, tree_size, valid_path};
use std::collections::HashSet;
use vstd::prelude::*;

verus! {

broadcast use vstd::std_specs::hash::group_hash_axioms;

// The twelve faces of a dodecahedron (pentagons) each carry five facets;
// the twenty faces of the icosahedron (triangles) each gather three facets
// of three neighbouring pentagons. Facets 5k..5k+5 belong to pentagon k.

pub const PENTA0: [usize; 5] = [0, 2, 5, 4, 1];

pub const PENTA1: [usize; 5] = [0, 3, 7, 6, 2];

pub const PENTA2: [usize; 5] = [0, 1, 9, 8, 3];

pub const PENTA3: [usize; 5] = [4, 5, 11, 16, 10];

pub const PENTA4: [usize; 5] = [6, 7, 13, 17, 12];

pub const PENTA5: [usize; 5] = [8, 9, 15, 18, 14];

pub const PENTA6: [usize; 5] = [1, 4, 10, 15, 9];

pub const PENTA7: [usize; 5] = [2, 6, 12, 11, 5];

pub const PENTA8: [usize; 5] = [3, 8, 14, 13, 7];

pub const PENTA9: [usize; 5] = [11, 12, 17, 19, 16];

pub const PENTA10: [usize; 5] = [13, 14, 18, 19, 17];

pub const PENTA11: [usize; 5] = [10, 16, 19, 18, 15];

/// For each pentagon, the five icosahedral vertices it surrounds, in walk
/// order.
pub const PENTAS: [[usize; 5]; 12] = [
    PENTA0, PENTA1, PENTA2, PENTA3, PENTA4, PENTA5, PENTA6, PENTA7, PENTA8, PENTA9, PENTA10,
    PENTA11,
];

/// For each triangle, its three facets.
pub const TRI_TO_FACETS: [[usize; 3]; 20] = [
    [0, 5, 10],
    [4, 11, 30],
    [1, 9, 35],
    [6, 14, 40],
    [3, 15, 31],
    [2, 16, 39],
    [8, 20, 36],
    [7, 21, 44],
    [13, 25, 41],
    [12, 26, 34],
    [19, 32, 55],
    [17, 38, 45],
    [24, 37, 46],
    [22, 43, 50],
    [29, 42, 51],
    [27, 33, 59],
    [18, 49, 56],
    [23, 47, 54],
    [28, 52, 58],
    [48, 53, 57],
];

/// For each facet, its pentagon and its triangle.
pub const FACETS: [(usize, usize); 60] = [
    (0, 0),
    (0, 2),
    (0, 5),
    (0, 4),
    (0, 1),
    (1, 0),
    (1, 3),
    (1, 7),
    (1, 6),
    (1, 2),
    (2, 0),
    (2, 1),
    (2, 9),
    (2, 8),
    (2, 3),
    (3, 4),
    (3, 5),
    (3, 11),
    (3, 16),
    (3, 10),
    (4, 6),
    (4, 7),
    (4, 13),
    (4, 17),
    (4, 12),
    (5, 8),
    (5, 9),
    (5, 15),
    (5, 18),
    (5, 14),
    (6, 1),
    (6, 4),
    (6, 10),
    (6, 15),
    (6, 9),
    (7, 2),
    (7, 6),
    (7, 12),
    (7, 11),
    (7, 5),
    (8, 3),
    (8, 8),
    (8, 14),
    (8, 13),
    (8, 7),
    (9, 11),
    (9, 12),
    (9, 17),
    (9, 19),
    (9, 16),
    (10, 13),
    (10, 14),
    (10, 18),
    (10, 19),
    (10, 17),
    (11, 10),
    (11, 16),
    (11, 19),
    (11, 18),
    (11, 15),
];

/// The sum every completed triangle must reach.
pub const TRIANGLE_SUM: i32 = 96;

/// Facet `f` lies on pentagon `f / 5` and on a triangle that lists it.
pub proof fn lemma_facet_table(f: int)
    requires
        0 <= f < 60,
    ensures
        FACETS[f].0 == f / 5,
        FACETS[f].1 < 20,
        TRI_TO_FACETS[FACETS[f].1 as int][0] == f || TRI_TO_FACETS[FACETS[f].1 as int][1] == f
            || TRI_TO_FACETS[FACETS[f].1 as int][2] == f,
{
    if f == 0 {
    } else if f == 1 {
    } else if f == 2 {
    } else if f == 3 {
    } else if f == 4 {
    } else if f == 5 {
    } else if f == 6 {
    } else if f == 7 {
    } else if f == 8 {
    } else if f == 9 {
    } else if f == 10 {
    } else if f == 11 {
    } else if f == 12 {
    } else if f == 13 {
    } else if f == 14 {
    } else if f == 15 {
    } else if f == 16 {
    } else if f == 17 {
    } else if f == 18 {
    } else if f == 19 {
    } else if f == 20 {
    } else if f == 21 {
    } else if f == 22 {
    } else if f == 23 {
    } else if f == 24 {
    } else if f == 25 {
    } else if f == 26 {
    } else if f == 27 {
    } else if f == 28 {
    } else if f == 29 {
    } else if f == 30 {
    } else if f == 31 {
    } else if f == 32 {
    } else if f == 33 {
    } else if f == 34 {
    } else if f == 35 {
    } else if f == 36 {
    } else if f == 37 {
    } else if f == 38 {
    } else if f == 39 {
    } else if f == 40 {
    } else if f == 41 {
    } else if f == 42 {
    } else if f == 43 {
    } else if f == 44 {
    } else if f == 45 {
    } else if f == 46 {
    } else if f == 47 {
    } else if f == 48 {
    } else if f == 49 {
    } else if f == 50 {
    } else if f == 51 {
    } else if f == 52 {
    } else if f == 53 {
    } else if f == 54 {
    } else if f == 55 {
    } else if f == 56 {
    } else if f == 57 {
    } else if f == 58 {
    } else if f == 59 {
    }
}

/// The three facets of a triangle lie on three different pentagons, and
/// each names the triangle back.
pub proof fn lemma_triangle_table(t: int)
    requires
        0 <= t < 20,
    ensures
        forall|j: int| 0 <= j < 3 ==> #[trigger] TRI_TO_FACETS[t][j] < 60,
        forall|j: int| 0 <= j < 3 ==> FACETS[#[trigger] TRI_TO_FACETS[t][j] as int].1 == t,
        TRI_TO_FACETS[t][0] / 5 != TRI_TO_FACETS[t][1] / 5,
        TRI_TO_FACETS[t][0] / 5 != TRI_TO_FACETS[t][2] / 5,
        TRI_TO_FACETS[t][1] / 5 != TRI_TO_FACETS[t][2] / 5,
{
    if t == 0 {
    } else if t == 1 {
    } else if t == 2 {
    } else if t == 3 {
    } else if t == 4 {
    } else if t == 5 {
    } else if t == 6 {
    } else if t == 7 {
    } else if t == 8 {
    } else if t == 9 {
    } else if t == 10 {
    } else if t == 11 {
    } else if t == 12 {
    } else if t == 13 {
    } else if t == 14 {
    } else if t == 15 {
    } else if t == 16 {
    } else if t == 17 {
    } else if t == 18 {
    } else if t == 19 {
    }
}

/// Sum of the three facets of triangle `t`.
pub open spec fn tri_sum(facets: Seq<i32>, t: int) -> int {
    facets[TRI_TO_FACETS[t][0] as int] + facets[TRI_TO_FACETS[t][1] as int]
        + facets[TRI_TO_FACETS[t][2] as int]
}

/// All three facets of triangle `t` are filled (non-zero).
pub open spec fn tri_full(facets: Seq<i32>, t: int) -> bool {
    &&& facets[TRI_TO_FACETS[t][0] as int] != 0
    &&& facets[TRI_TO_FACETS[t][1] as int] != 0
    &&& facets[TRI_TO_FACETS[t][2] as int] != 0
}

/// Every triangle whose three facets are filled sums to 96.
pub open spec fn triangles_ok(facets: Seq<i32>) -> bool {
    forall|t: int| 0 <= t < 20 && #[trigger] tri_full(facets, t) ==> tri_sum(facets, t) == 96
}

/// The facets of the triangle of facet `f`, other than `f`, are filled.
pub open spec fn others_full(facets: Seq<i32>, f: int) -> bool {
    let t = FACETS[f].1 as int;
    forall|j: int|
        0 <= j < 3 && #[trigger] TRI_TO_FACETS[t][j] != f ==> facets[TRI_TO_FACETS[t][j] as int]
            != 0
}

/// Writing `val` into the empty facet `f` passes the triangle check: when it
/// completes the triangle, the triangle sums to 96.
pub open spec fn facet_ok(facets: Seq<i32>, f: int, val: i32) -> bool {
    others_full(facets, f) ==> tri_sum(facets, FACETS[f].1 as int) + val == 96
}

/// The label that pentagon `penta` in rotation `rot` puts on the `r`-th
/// facet of its slot.
pub open spec fn slot_value(penta: [i32; 5], rot: int, r: int) -> i32 {
    penta[(r + 5 - rot) % 5]
}

/// Pentagon `penta` in rotation `rot` passes the triangle check of each of
/// the five facets of slot `at`.
pub open spec fn penta_fits(facets: Seq<i32>, penta: [i32; 5], rot: int, at: int) -> bool {
    forall|r: int| 0 <= r < 5 ==> #[trigger] facet_ok(facets, 5 * at + r, slot_value(penta, rot, r))
}

/// The facets with pentagon `penta` written into slot `at` in rotation `rot`.
pub open spec fn placed(facets: Seq<i32>, penta: [i32; 5], rot: int, at: int) -> Seq<i32> {
    Seq::new(
        facets.len(),
        |c: int|
            if 5 * at <= c < 5 * at + 5 {
                slot_value(penta, rot, c - 5 * at)
            } else {
                facets[c]
            },
    )
}

/// The facets with slot `at` emptied.
pub open spec fn cleared(facets: Seq<i32>, at: int) -> Seq<i32> {
    Seq::new(facets.len(), |c: int| if 5 * at <= c < 5 * at + 5 { 0 } else { facets[c] })
}

/// The facets that the placements `stack` (pentagon, rotation), one per
/// slot from slot 0 on, write; the other slots stay empty.
pub open spec fn layout(pentas: Seq<[i32; 5]>, stack: Seq<(usize, usize)>) -> Seq<i32> {
    Seq::new(
        60,
        |c: int|
            if c / 5 < stack.len() {
                slot_value(pentas[stack[c / 5].0 as int], stack[c / 5].1 as int, c % 5)
            } else {
                0
            },
    )
}

/// Tries to write pentagon `penta` in rotation `rot` into the empty slot
/// `at`: fails, leaving the facets as they were, when one of its facets
/// would complete a triangle that does not sum to 96.
pub fn place_penta(state: &mut [i32; 60], penta: &[i32; 5], rot: usize, at: usize) -> (r: bool)
    requires
        at < 12,
        rot < 5,
        forall|r: int| 0 <= r < 5 ==> #[trigger] old(state)@[5 * at + r] == 0,
    ensures
        r == penta_fits(old(state)@, *penta, rot as int, at as int),
        r ==> final(state)@ == placed(old(state)@, *penta, rot as int, at as int),
        !r ==> final(state)@ == old(state)@,
{
    let base = at * 5;
    // perform the checks...
    let mut r: usize = 0;
    while r < 5
        invariant
            at < 12,
            rot < 5,
            base == 5 * at,
            r <= 5,
            *state == *old(state),
            forall|r2: int| 0 <= r2 < 5 ==> #[trigger] old(state)@[5 * at + r2] == 0,
            forall|r2: int|
                0 <= r2 < r ==> #[trigger] facet_ok(
                    state@,
                    5 * at + r2,
                    slot_value(*penta, rot as int, r2),
                ),
        decreases 5 - r,
    {
        let idx = base + r;
        let val = penta[(r + 5 - rot) % 5];
        proof {
            lemma_facet_table(idx as int);
            lemma_triangle_table(FACETS[idx as int].1 as int);
        }
        let triangle = FACETS[idx].1;
        let facets = TRI_TO_FACETS[triangle];
        let a = facets[0];
        let b = facets[1];
        let c = facets[2];
        let sum = state[a] as i64 + state[b] as i64 + state[c] as i64;
        let full = (a == idx || state[a] != 0) && (b == idx || state[b] != 0) && (c == idx
            || state[c] != 0);
        proof {
            let t = triangle as int;
            assert(full == others_full(state@, idx as int)) by {
                if full {
                    assert forall|j: int|
                        0 <= j < 3 && #[trigger] TRI_TO_FACETS[t][j] != idx implies state@[TRI_TO_FACETS[t][j] as int]
                        != 0 by {
                        assert(j == 0 || j == 1 || j == 2);
                    }
                } else {
                    if !(a == idx || state[a as int] != 0) {
                        assert(TRI_TO_FACETS[t][0] != idx);
                    } else if !(b == idx || state[b as int] != 0) {
                        assert(TRI_TO_FACETS[t][1] != idx);
                    } else {
                        assert(TRI_TO_FACETS[t][2] != idx);
                    }
                }
            }
        }
        if full && sum + val as i64 != 96 {
            proof {
                assert(val == slot_value(*penta, rot as int, r as int));
                assert(idx == 5 * at + r);
                assert(sum == tri_sum(state@, FACETS[idx as int].1 as int));
                assert(!facet_ok(state@, 5 * at + r, slot_value(*penta, rot as int, r as int)));
            }
            return false;
        }
        r += 1;
    }
    // ... then writing the values
    let ghost before = state@;
    let mut r: usize = 0;
    while r < 5
        invariant
            at < 12,
            rot < 5,
            base == 5 * at,
            r <= 5,
            before == old(state)@,
            state@.len() == 60,
            forall|c: int|
                0 <= c < 60 ==> #[trigger] state@[c] == if 5 * at <= c < 5 * at + r {
                    slot_value(*penta, rot as int, c - 5 * at)
                } else {
                    before[c]
                },
        decreases 5 - r,
    {
        let idx = base + r;
        state[idx] = penta[(r + 5 - rot) % 5];
        r += 1;
    }
    assert(state@ =~= placed(before, *penta, rot as int, at as int));
    true
}

/// Empties slot `at`, whose facets are all filled.
pub fn remove_penta(state: &mut [i32; 60], at: usize)
    requires
        at < 12,
        forall|r: int| 0 <= r < 5 ==> #[trigger] old(state)@[5 * at + r] != 0,
    ensures
        final(state)@ == cleared(old(state)@, at as int),
{
    let base = at * 5;
    let ghost before = state@;
    let mut r: usize = 0;
    while r < 5
        invariant
            at < 12,
            base == 5 * at,
            r <= 5,
            before == old(state)@,
            state@.len() == 60,
            forall|c: int|
                0 <= c < 60 ==> #[trigger] state@[c] == if 5 * at <= c < 5 * at + r {
                    0
                } else {
                    before[c]
                },
        decreases 5 - r,
    {
        state[base + r] = 0;
        r += 1;
    }
    assert(state@ =~= cleared(before, at as int));
}

/// The pentagon ids of the placements `s`.
pub open spec fn ids(s: Seq<(usize, usize)>) -> Set<usize> {
    Set::new(|x: usize| exists|j: int| 0 <= j < s.len() && (#[trigger] s[j]).0 == x)
}

/// The choice of pentagon and rotation, as a code below 60.
pub open spec fn choice_code(e: (usize, usize)) -> nat {
    (e.0 * 5 + e.1) as nat
}

pub open spec fn codes(s: Seq<(usize, usize)>) -> Seq<nat> {
    s.map_values(|e: (usize, usize)| choice_code(e))
}

/// Every label of every pentagon is filled (non-zero): an empty facet holds
/// zero.
pub open spec fn labels_filled(pentas: Seq<[i32; 5]>) -> bool {
    forall|p: int, i: int| 0 <= p < pentas.len() && 0 <= i < 5 ==> #[trigger] pentas[p][i] != 0
}

/// A complete assignment: twelve distinct pentagons, one per slot, every
/// triangle summing to 96.
pub open spec fn is_solution(pentas: Seq<[i32; 5]>, s: Seq<(usize, usize)>) -> bool {
    &&& s.len() == 12
    &&& forall|j: int| 0 <= j < 12 ==> (#[trigger] s[j]).0 < 12 && s[j].1 < 5
    &&& forall|i: int, j: int| 0 <= i < j < 12 ==> (#[trigger] s[i]).0 != (#[trigger] s[j]).0
    &&& forall|t: int| 0 <= t < 20 ==> #[trigger] tri_sum(layout(pentas, s), t) == 96
}

/// The stepwise dodecahedral solver.
pub struct DodecaSolver {
    /// the twelve pentagons, five labels each
    pub pentas: Vec<[i32; 5]>,
    /// the facets of the dodecahedron; zero where empty
    pub facets: [i32; 60],
    /// (pentagon, rotation) of each filled slot, from slot 0 on
    pub stack: Vec<(usize, usize)>,
    /// the pentagons placed
    pub used: HashSet<usize>,
    pub done: bool,
    pub solutions: Vec<[(usize, usize); 12]>,
}

impl DodecaSolver {
    pub open spec fn wf(&self) -> bool {
        let n = self.stack@.len();
        &&& self.pentas@.len() == 12
        &&& labels_filled(self.pentas@)
        &&& 1 <= n <= 12
        &&& self.stack@[0] == (0usize, 0usize)
        &&& forall|j: int| 0 <= j < n ==> (#[trigger] self.stack@[j]).0 < 12 && self.stack@[j].1 < 5
        &&& forall|i: int, j: int|
            0 <= i < j < n ==> (#[trigger] self.stack@[i]).0 != (#[trigger] self.stack@[j]).0
        &&& self.used@ == ids(self.stack@)
        &&& self.facets@ == layout(self.pentas@, self.stack@)
        &&& triangles_ok(self.facets@)
        &&& forall|k: int|
            0 <= k < self.solutions@.len() ==> is_solution(
                self.pentas@,
                (#[trigger] self.solutions@[k])@,
            ) && self.solutions@[k]@[0] == (0usize, 0usize)
    }

    pub open spec fn search_rank(&self) -> int {
        rank(codes(self.stack@), 60, 12)
    }

    /// The solutions were found in the order of the search, each before the
    /// current search state: their ranks increase strictly.
    pub open spec fn sols_ranked(&self) -> bool {
        &&& forall|k1: int, k2: int|
            0 <= k1 < k2 < self.solutions@.len() ==> rank(
                codes((#[trigger] self.solutions@[k1])@),
                60,
                12,
            ) < rank(codes((#[trigger] self.solutions@[k2])@), 60, 12)
        &&& !self.done ==> forall|k: int|
            0 <= k < self.solutions@.len() ==> rank(codes((#[trigger] self.solutions@[k])@), 60, 12)
                < self.search_rank()
    }

    /// Pentagon `i`, unused, fits the next slot in rotation `rot`.
    pub open spec fn deeper_candidate(&self, i: int, rot: int) -> bool {
        &&& 0 <= i < 12
        &&& 0 <= rot < 5
        &&& self.stack@.len() < 12
        &&& !self.used@.contains(i as usize)
        &&& penta_fits(self.facets@, self.pentas@[i], rot, self.stack@.len() as int)
    }
}

proof fn lemma_ids_push(s: Seq<(usize, usize)>, e: (usize, usize))
    ensures
        ids(s.push(e)) == ids(s).insert(e.0),
{
    assert forall|x: usize| #[trigger] ids(s.push(e)).contains(x) == ids(s).insert(e.0).contains(
        x,
    ) by {
        if ids(s).contains(x) {
            let j = choose|j: int| 0 <= j < s.len() && (#[trigger] s[j]).0 == x;
            assert(s.push(e)[j] == s[j]);
        }
        if x == e.0 {
            assert(s.push(e)[s.len() as int] == e);
        }
        if ids(s.push(e)).contains(x) {
            let j = choose|j: int| 0 <= j < s.len() + 1 && (#[trigger] s.push(e)[j]).0 == x;
            if j < s.len() {
                assert(s[j] == s.push(e)[j]);
            }
        }
    }
    assert(ids(s.push(e)) =~= ids(s).insert(e.0));
}

proof fn lemma_ids_pop(s: Seq<(usize, usize)>)
    requires
        s.len() > 0,
        forall|i: int, j: int| 0 <= i < j < s.len() ==> (#[trigger] s[i]).0 != (#[trigger] s[j]).0,
    ensures
        ids(s.drop_last()) == ids(s).remove(s.last().0),
{
    let t = s.drop_last();
    assert forall|x: usize| #[trigger] ids(t).contains(x) == ids(s).remove(s.last().0).contains(x) by {
        if ids(t).contains(x) {
            let j = choose|j: int| 0 <= j < t.len() && (#[trigger] t[j]).0 == x;
            assert(s[j] == t[j]);
            assert(s[j].0 != s[s.len() - 1].0);
        }
        if ids(s).contains(x) && x != s.last().0 {
            let j = choose|j: int| 0 <= j < s.len() && (#[trigger] s[j]).0 == x;
            assert(j != s.len() - 1);
            assert(t[j] == s[j]);
        }
    }
    assert(ids(t) =~= ids(s).remove(s.last().0));
}

/// Placing a fitting pentagon into the next slot gives the layout of the
/// longer stack and keeps every completed triangle at 96.
proof fn lemma_place_layout(pentas: Seq<[i32; 5]>, stack: Seq<(usize, usize)>, e: (usize, usize))
    requires
        pentas.len() == 12,
        stack.len() < 12,
        e.0 < 12,
        e.1 < 5,
        triangles_ok(layout(pentas, stack)),
        penta_fits(layout(pentas, stack), pentas[e.0 as int], e.1 as int, stack.len() as int),
    ensures
        placed(layout(pentas, stack), pentas[e.0 as int], e.1 as int, stack.len() as int)
            == layout(pentas, stack.push(e)),
        triangles_ok(layout(pentas, stack.push(e))),
{
    let f0 = layout(pentas, stack);
    let d = stack.len() as int;
    let f1 = layout(pentas, stack.push(e));
    let penta = pentas[e.0 as int];
    assert forall|c: int| 0 <= c < 60 implies #[trigger] f1[c] == placed(f0, penta, e.1 as int, d)[c] by {
        if c / 5 < d {
            assert(stack.push(e)[c / 5] == stack[c / 5]);
        }
        if 5 * d <= c < 5 * d + 5 {
            assert(c / 5 == d);
            assert(c % 5 == c - 5 * d);
        } else {
            assert(c / 5 != d);
        }
    }
    assert(f1 =~= placed(f0, penta, e.1 as int, d));
    assert forall|t: int| 0 <= t < 20 && #[trigger] tri_full(f1, t) implies tri_sum(f1, t) == 96 by {
        lemma_triangle_table(t);
        let a = TRI_TO_FACETS[t][0] as int;
        let b = TRI_TO_FACETS[t][1] as int;
        let c = TRI_TO_FACETS[t][2] as int;
        // a facet of the new slot in this triangle, if any
        if a / 5 == d || b / 5 == d || c / 5 == d {
            let f = if a / 5 == d {
                a
            } else if b / 5 == d {
                b
            } else {
                c
            };
            let j = if a / 5 == d {
                0int
            } else if b / 5 == d {
                1int
            } else {
                2int
            };
            assert(TRI_TO_FACETS[t][j] == f);
            assert(FACETS[f].1 == t);
            let r = f - 5 * d;
            assert(0 <= r < 5);
            assert(f == 5 * d + r);
            assert(facet_ok(f0, 5 * d + r, slot_value(penta, e.1 as int, r)));
            assert(f0[f] == 0);
            assert forall|j2: int|
                0 <= j2 < 3 && #[trigger] TRI_TO_FACETS[t][j2] != f implies f0[TRI_TO_FACETS[t][j2] as int]
                != 0 by {
                let g = TRI_TO_FACETS[t][j2] as int;
                assert(j2 == 0 || j2 == 1 || j2 == 2);
                assert(g / 5 != d);
                assert(f1[g] == f0[g]);
            }
            assert(others_full(f0, f));
        } else {
            assert(f1[a] == f0[a] && f1[b] == f0[b] && f1[c] == f0[c]);
            assert(tri_full(f0, t));
        }
    }
}

/// Emptying the last filled slot gives the layout of the shorter stack and
/// keeps every completed triangle at 96.
proof fn lemma_clear_layout(pentas: Seq<[i32; 5]>, stack: Seq<(usize, usize)>)
    requires
        pentas.len() == 12,
        1 <= stack.len() <= 12,
        triangles_ok(layout(pentas, stack)),
    ensures
        cleared(layout(pentas, stack), stack.len() - 1) == layout(pentas, stack.drop_last()),
        triangles_ok(layout(pentas, stack.drop_last())),
{
    let f0 = layout(pentas, stack);
    let d = stack.len() - 1;
    let f1 = layout(pentas, stack.drop_last());
    assert forall|c: int| 0 <= c < 60 implies #[trigger] f1[c] == cleared(f0, d)[c] by {
        if c / 5 < d {
            assert(stack.drop_last()[c / 5] == stack[c / 5]);
        }
    }
    assert(f1 =~= cleared(f0, d));
    assert forall|t: int| 0 <= t < 20 && #[trigger] tri_full(f1, t) implies tri_sum(f1, t) == 96 by {
        lemma_triangle_table(t);
        let a = TRI_TO_FACETS[t][0] as int;
        let b = TRI_TO_FACETS[t][1] as int;
        let c = TRI_TO_FACETS[t][2] as int;
        assert(f1[a] == f0[a] && f1[b] == f0[b] && f1[c] == f0[c]);
        assert(tri_full(f0, t));
    }
}

/// In a layout, the filled slots hold the pentagons' labels, all non-zero.
proof fn lemma_layout_filled(pentas: Seq<[i32; 5]>, stack: Seq<(usize, usize)>, at: int)
    requires
        pentas.len() == 12,
        labels_filled(pentas),
        forall|j: int| 0 <= j < stack.len() ==> (#[trigger] stack[j]).0 < 12 && stack[j].1 < 5,
        0 <= at < stack.len(),
        stack.len() <= 12,
    ensures
        forall|r: int| 0 <= r < 5 ==> #[trigger] layout(pentas, stack)[5 * at + r] != 0,
{
    assert forall|r: int| 0 <= r < 5 implies #[trigger] layout(pentas, stack)[5 * at + r] != 0 by {
        let c = 5 * at + r;
        assert(c / 5 == at);
        assert(c % 5 == r);
        let e = stack[at];
        let k = (r + 5 - e.1) % 5;
        assert(0 <= k < 5);
        assert(pentas[e.0 as int][k] != 0);
    }
}

/// Backtracking to slot `j` and choosing a higher candidate there raises the
/// rank.
proof fn lemma_sideways_rank(q: Seq<(usize, usize)>, j: int, e: (usize, usize))
    requires
        valid_path(codes(q), 60, 12),
        0 <= j < q.len(),
        choice_code(e) > choice_code(q[j]),
    ensures
        rank(codes(q.take(j).push(e)), 60, 12) > rank(codes(q), 60, 12),
{
    assert(codes(q.take(j).push(e)) =~= codes(q).take(j).push(choice_code(e)));
    lemma_rank_sideways(codes(q), j, choice_code(e), 60, 12);
}

impl DodecaSolver {
    /// A solver for the twelve pentagons `pentas`, with pentagon 0 placed in
    /// rotation 0 on slot 0, which fixes the dodecahedron's orientation.
    pub fn new(pentas: Vec<[i32; 5]>) -> (r: DodecaSolver)
        requires
            pentas@.len() == 12,
            labels_filled(pentas@),
        ensures
            r.wf(),
            r.pentas@ == pentas@,
            !r.done,
            r.stack@ == seq![(0usize, 0usize)],
            r.solutions@.len() == 0,
            r.sols_ranked(),
            r.exhaustive(),
    {
        let mut facets = [0i32; 60];
        assert(facets@ =~= layout(pentas@, seq![]));
        let penta = pentas[0];
        proof {
            let f0 = layout(pentas@, seq![]);
            assert forall|r: int| 0 <= r < 5 implies #[trigger] facet_ok(
                facets@,
                5 * 0 + r,
                slot_value(penta, 0, r),
            ) by {
                lemma_facet_table(r);
                lemma_triangle_table(FACETS[r].1 as int);
                let t = FACETS[r].1 as int;
                assert(!others_full(facets@, r)) by {
                    let j = if TRI_TO_FACETS[t][0] != r {
                        0int
                    } else {
                        1int
                    };
                    assert(TRI_TO_FACETS[t][j] != r);
                    assert(facets@[TRI_TO_FACETS[t][j] as int] == 0);
                }
            }
            assert(triangles_ok(facets@)) by {
                assert forall|t: int| 0 <= t < 20 && #[trigger] tri_full(facets@, t) implies tri_sum(facets@, t) == 96 by {
                    lemma_triangle_table(t);
                }
            }
            lemma_place_layout(pentas@, seq![], (0usize, 0usize));
        }
        place_penta(&mut facets, &penta, 0, 0);
        let mut used: HashSet<usize> = HashSet::new();
        used.insert(0);
        let mut stack: Vec<(usize, usize)> = Vec::new();
        stack.push((0, 0));
        proof {
            assert(seq![].push((0usize, 0usize)) =~= stack@);
            lemma_ids_push(seq![], (0usize, 0usize));
            assert(ids(seq![]) =~= Set::<usize>::empty());
            assert(used@ =~= ids(stack@));
        }
        let r = DodecaSolver { pentas, facets, stack, used, done: false, solutions: Vec::new() };
        proof {
            assert forall|sol: Seq<(usize, usize)>|
                #[trigger] full_solution(r.pentas@, sol) && left_of(sol, r.stack@) implies recorded_in(
                r.solutions@,
                sol,
            ) by {
                let j = choose|j: int| #[trigger] branches_left(sol, r.stack@, j);
                assert(j == 0);
                assert(choice_code(r.stack@[0]) == 0);
            }
        }
        r
    }

    pub fn done(&self) -> (r: bool)
        ensures
            r == self.done,
    {
        self.done
    }

    /// Tries pentagon `i` in rotation `rot` on the next slot.
    fn try_place(&mut self, i: usize, rot: usize) -> (r: bool)
        requires
            old(self).wf(),
            old(self).stack@.len() < 12,
            i < 12,
            rot < 5,
            !old(self).used@.contains(i),
        ensures
            final(self).wf(),
            r == penta_fits(old(self).facets@, old(self).pentas@[i as int], rot as int, old(self).stack@.len() as int),
            r ==> final(self).stack@ == old(self).stack@.push((i, rot)),
            !r ==> *final(self) == *old(self),
            final(self).pentas@ == old(self).pentas@,
            final(self).solutions@ == old(self).solutions@,
            final(self).done == old(self).done,
    {
        let d = self.stack.len();
        let penta = self.pentas[i];
        proof {
            assert forall|r: int| 0 <= r < 5 implies #[trigger] self.facets@[5 * d + r] == 0 by {
                assert((5 * d + r) / 5 == d);
            }
        }
        if place_penta(&mut self.facets, &penta, rot, d) {
            proof {
                lemma_place_layout(self.pentas@, self.stack@, (i, rot));
                lemma_ids_push(self.stack@, (i, rot));
            }
            let ghost before = self.stack@;
            self.used.insert(i);
            self.stack.push((i, rot));
            proof {
                assert(self.stack@[0] == before[0]);
                assert forall|a: int, b: int|
                    0 <= a < b < self.stack@.len() implies (#[trigger] self.stack@[a]).0 != (
                    #[trigger] self.stack@[b]).0 by {
                    if b == before.len() {
                        assert(ids(before).contains(self.stack@[a].0)) by {
                            assert(before[a] == self.stack@[a]);
                        }
                    } else {
                        assert(before[a] == self.stack@[a]);
                        assert(before[b] == self.stack@[b]);
                    }
                }
                assert forall|j: int| 0 <= j < self.stack@.len() implies (
                #[trigger] self.stack@[j]).0 < 12 && self.stack@[j].1 < 5 by {
                    if j < before.len() {
                        assert(before[j] == self.stack@[j]);
                    }
                }
            }
            true
        } else {
            proof {
                broadcast use vstd::array::group_array_axioms;

                assert(self.facets =~= old(self).facets);
            }
            false
        }
    }

    /// Advances the search by one edge: fills the next slot if some unused
    /// pentagon in some rotation fits there; otherwise records a complete
    /// assignment, then empties slots until one can take the next candidate.
    /// Returns false, and marks the search done, once only slot 0 is left.
    pub fn step(&mut self) -> (r: bool)
        requires
            old(self).wf(),
            old(self).sols_ranked(),
            old(self).exhaustive(),
        ensures
            final(self).wf(),
            final(self).sols_ranked(),
            final(self).exhaustive(),
            final(self).pentas@ == old(self).pentas@,
            r == !final(self).done,
            r ==> final(self).search_rank() > old(self).search_rank(),
            old(self).solutions@.len() <= final(self).solutions@.len(),
            forall|k: int|
                0 <= k < old(self).solutions@.len() ==> #[trigger] final(self).solutions@[k]
                    == old(self).solutions@[k],
            // going deeper: when an unused pentagon fits the next slot, the
            // first one in (pentagon, rotation) order is placed
            !old(self).done && (exists|i: int, rot: int| old(self).deeper_candidate(i, rot))
                ==> exists|i: int, rot: int|
                {
                    &&& #[trigger] old(self).deeper_candidate(i, rot)
                    &&& final(self).stack@ == old(self).stack@.push((i as usize, rot as usize))
                    &&& forall|i2: int, r2: int|
                        (i2 < i || (i2 == i && r2 < rot)) ==> !#[trigger] old(
                            self,
                        ).deeper_candidate(i2, r2)
                },
            // otherwise: moving sideways, after backtracking as far as needed
            !old(self).done && !(exists|i: int, rot: int| old(self).deeper_candidate(i, rot))
                ==> final(self).stack@.len() <= old(self).stack@.len(),
    {
        if self.done {
            return false;
        }
        let ghost s0 = *self;
        proof {
            assert(valid_path(codes(s0.stack@), 60, 12));
        }
        let d = self.stack.len();
        if d < 12 {
            let mut i: usize = 0;
            while i < 12
                invariant
                    *self == s0,
                    s0 == *old(self),
                    s0.wf(),
                    s0.sols_ranked(),
                    s0.exhaustive(),
                    d == s0.stack@.len(),
                    d < 12,
                    !s0.done,
                    i <= 12,
                    forall|i2: int, r2: int| i2 < i ==> !#[trigger] s0.deeper_candidate(i2, r2),
                decreases 12 - i,
            {
                if !self.used.contains(&i) {
                    let mut rot: usize = 0;
                    while rot < 5
                        invariant
                            *self == s0,
                            s0 == *old(self),
                            s0.wf(),
                            s0.sols_ranked(),
                            s0.exhaustive(),
                            d == s0.stack@.len(),
                            d < 12,
                            i < 12,
                            !s0.used@.contains(i),
                            !s0.done,
                            forall|i2: int, r2: int|
                                (i2 < i || (i2 == i && r2 < rot)) ==> !#[trigger] s0.deeper_candidate(
                                    i2,
                                    r2,
                                ),
                        decreases 5 - rot,
                    {
                        if self.try_place(i, rot) {
                            proof {
                                assert(s0.deeper_candidate(i as int, rot as int));
                                assert(self.solutions@ == s0.solutions@);
                                assert(codes(self.stack@) =~= codes(s0.stack@).push(
                                    choice_code((i, rot)),
                                ));
                                lemma_rank_push(codes(s0.stack@), choice_code((i, rot)), 60, 12);
                                let q = s0.stack@;
                                assert forall|sol: Seq<(usize, usize)>|
                                    #[trigger] full_solution(self.pentas@, sol) && left_of(sol, self.stack@)
                                        implies recorded_in(self.solutions@, sol) by {
                                    let j = choose|j: int| #[trigger] branches_left(sol, self.stack@, j);
                                    if j < q.len() {
                                        assert(self.stack@.take(j) =~= q.take(j));
                                        assert(self.stack@[j] == q[j]);
                                        assert(branches_left(sol, q, j));
                                    } else {
                                        assert(self.stack@.take(j) =~= q);
                                        lemma_next_candidate(s0.pentas@, sol, q);
                                        lemma_code_order(sol[j], (i, rot));
                                        assert(s0.deeper_candidate(sol[j].0 as int, sol[j].1 as int));
                                    }
                                }
                            }
                            return true;
                        }
                        rot += 1;
                    }
                }
                proof {
                    assert forall|i2: int, r2: int| i2 < i + 1 implies !#[trigger] s0.deeper_candidate(
                        i2,
                        r2,
                    ) by {
                        if i2 == i && s0.deeper_candidate(i2, r2) {
                            assert(i2 < i || (i2 == i && r2 < 5));
                        }
                    }
                }
                i += 1;
            }
        }
        proof {
            assert forall|i2: int, r2: int| !#[trigger] s0.deeper_candidate(i2, r2) by {
                if s0.deeper_candidate(i2, r2) {
                    assert(i2 < 12);
                }
            }
        }
        if self.stack.len() == 12 {
            // a complete assignment
            let solution = [
                self.stack[0],
                self.stack[1],
                self.stack[2],
                self.stack[3],
                self.stack[4],
                self.stack[5],
                self.stack[6],
                self.stack[7],
                self.stack[8],
                self.stack[9],
                self.stack[10],
                self.stack[11],
            ];
            proof {
                assert(solution@ =~= self.stack@);
                let f = self.facets@;
                assert forall|t: int| 0 <= t < 20 implies #[trigger] tri_sum(
                    layout(self.pentas@, solution@),
                    t,
                ) == 96 by {
                    lemma_triangle_table(t);
                    let a = TRI_TO_FACETS[t][0] as int;
                    let b = TRI_TO_FACETS[t][1] as int;
                    let c = TRI_TO_FACETS[t][2] as int;
                    lemma_layout_filled(self.pentas@, self.stack@, a / 5);
                    lemma_layout_filled(self.pentas@, self.stack@, b / 5);
                    lemma_layout_filled(self.pentas@, self.stack@, c / 5);
                    assert(f[5 * (a / 5) + a % 5] != 0);
                    assert(f[5 * (b / 5) + b % 5] != 0);
                    assert(f[5 * (c / 5) + c % 5] != 0);
                    assert(tri_full(f, t));
                }
            }
            let ghost before = self.solutions@;
            self.solutions.push(solution);
            proof {
                assert forall|k: int| 0 <= k < self.solutions@.len() implies is_solution(
                    self.pentas@,
                    (#[trigger] self.solutions@[k])@,
                ) && self.solutions@[k]@[0] == (0usize, 0usize) by {
                    if k < before.len() {
                        assert(self.solutions@[k] == before[k]);
                    }
                }
                assert forall|k1: int, k2: int|
                    0 <= k1 < k2 < self.solutions@.len() implies rank(
                    codes((#[trigger] self.solutions@[k1])@),
                    60,
                    12,
                ) < rank(codes((#[trigger] self.solutions@[k2])@), 60, 12) by {
                    assert(self.solutions@[k1] == before[k1]);
                    if k2 < before.len() {
                        assert(self.solutions@[k2] == before[k2]);
                    } else {
                        assert(self.solutions@[k2]@ == s0.stack@);
                    }
                }
            }
        }
        let ghost s1 = *self;
        proof {
            let q = s0.stack@;
            assert forall|sol: Seq<(usize, usize)>|
                #[trigger] full_solution(s0.pentas@, sol) && left_of(sol, q) implies recorded_in(
                s1.solutions@,
                sol,
            ) by {
                assert(recorded_in(s0.solutions@, sol));
                let k = choose|k: int| 0 <= k < s0.solutions@.len() && (#[trigger] s0.solutions@[k])@ == sol;
                assert(s1.solutions@[k] == s0.solutions@[k]);
            }
            assert forall|sol: Seq<(usize, usize)>|
                #[trigger] full_solution(s0.pentas@, sol) && extends(sol, q) implies recorded_in(
                s1.solutions@,
                sol,
            ) by {
                if q.len() == 12 {
                    assert(sol =~= q);
                    assert(s1.solutions@[s1.solutions@.len() - 1]@ == q);
                } else {
                    lemma_next_candidate(s0.pentas@, sol, q);
                    assert(s0.deeper_candidate(sol[q.len() as int].0 as int, sol[q.len() as int].1 as int));
                }
            }
            assert forall|x: int| 0 <= x < q.len() implies (#[trigger] q[x]).1 < 5 by {}
        }
        proof {
            assert forall|k: int| 0 <= k < s1.solutions@.len() implies rank(
                codes((#[trigger] s1.solutions@[k])@),
                60,
                12,
            ) <= s0.search_rank() by {
                if k < s0.solutions@.len() {
                    assert(s1.solutions@[k] == s0.solutions@[k]);
                }
            }
        }
        // backtrack; slot 0 keeps pentagon 0 in rotation 0
        while self.stack.len() > 1
            invariant
                self.wf(),
                self.pentas@ == s0.pentas@,
                s0 == *old(self),
                !self.done,
                self.solutions@ == s1.solutions@,
                s0.solutions@.len() <= s1.solutions@.len(),
                forall|k: int|
                    0 <= k < s0.solutions@.len() ==> #[trigger] s1.solutions@[k]
                        == s0.solutions@[k],
                self.stack@.len() <= s0.stack@.len(),
                self.stack@ == s0.stack@.take(self.stack@.len() as int),
                valid_path(codes(s0.stack@), 60, 12),
                forall|i2: int, r2: int| !#[trigger] s0.deeper_candidate(i2, r2),
                forall|k: int|
                    0 <= k < s1.solutions@.len() ==> rank(codes((#[trigger] s1.solutions@[k])@), 60, 12)
                        <= s0.search_rank(),
                forall|k1: int, k2: int|
                    0 <= k1 < k2 < s1.solutions@.len() ==> rank(
                        codes((#[trigger] s1.solutions@[k1])@),
                        60,
                        12,
                    ) < rank(codes((#[trigger] s1.solutions@[k2])@), 60, 12),
                forall|sol: Seq<(usize, usize)>|
                    #[trigger] full_solution(s0.pentas@, sol) && left_of(sol, s0.stack@) ==> recorded_in(
                        s1.solutions@,
                        sol,
                    ),
                forall|x: int| 0 <= x < s0.stack@.len() ==> (#[trigger] s0.stack@[x]).1 < 5,
                forall|sol: Seq<(usize, usize)>|
                    #[trigger] full_solution(s0.pentas@, sol) && extends(sol, self.stack@)
                        ==> recorded_in(s1.solutions@, sol),
            decreases self.stack@.len(),
        {
            let ghost before = *self;
            let (prev_i, prev_rot) = self.stack.pop().unwrap();
            let d = self.stack.len();
            proof {
                assert(before.stack@.last() == (prev_i, prev_rot));
                assert(before.stack@.drop_last() =~= self.stack@);
                lemma_ids_pop(before.stack@);
                lemma_clear_layout(self.pentas@, before.stack@);
                lemma_layout_filled(self.pentas@, before.stack@, d as int);
            }
            self.used.remove(&prev_i);
            remove_penta(&mut self.facets, d);
            proof {
                assert(self.stack@ =~= s0.stack@.take(d as int));
                assert(self.stack@[0] == before.stack@[0]);
                assert forall|j: int| 0 <= j < self.stack@.len() implies (
                #[trigger] self.stack@[j]).0 < 12 && self.stack@[j].1 < 5 by {
                    assert(before.stack@[j] == self.stack@[j]);
                }
                assert forall|a: int, b: int|
                    0 <= a < b < self.stack@.len() implies (#[trigger] self.stack@[a]).0 != (
                    #[trigger] self.stack@[b]).0 by {
                    assert(before.stack@[a] == self.stack@[a]);
                    assert(before.stack@[b] == self.stack@[b]);
                }
                assert(s0.stack@[d as int] == (prev_i, prev_rot));
                assert(!self.used@.contains(prev_i));
            }
            let ghost s2 = *self;
            proof {
                assert(s2.stack@ == s0.stack@.take(d as int));
                assert(before.stack@ =~= s0.stack@.take(d + 1));
            }
            // sideways: the same pentagon in a further rotation...
            let mut rot = prev_rot + 1;
            while rot < 5
                invariant
                    *self == s2,
                    s2.wf(),
                    s2.stack@.len() == d,
                    d < s0.stack@.len(),
                    s2.stack@ == s0.stack@.take(d as int),
                    s0.stack@[d as int] == (prev_i, prev_rot),
                    prev_i < 12,
                    !s2.used@.contains(prev_i),
                    rot > prev_rot,
                    forall|sol: Seq<(usize, usize)>|
                        #[trigger] full_solution(s0.pentas@, sol) && left_of(sol, s0.stack@) ==> recorded_in(
                            s1.solutions@,
                            sol,
                        ),
                    forall|x: int| 0 <= x < s0.stack@.len() ==> (#[trigger] s0.stack@[x]).1 < 5,
                    forall|sol: Seq<(usize, usize)>|
                        #[trigger] full_solution(s0.pentas@, sol) && extends(sol, s0.stack@.take(d + 1))
                            ==> recorded_in(s1.solutions@, sol),
                    s2.facets@ == layout(s0.pentas@, s0.stack@.take(d as int)),
                    s2.used@ == ids(s0.stack@.take(d as int)),
                    forall|r2: int|
                        prev_rot < r2 < rot ==> !#[trigger] penta_fits(
                            s2.facets@,
                            s0.pentas@[prev_i as int],
                            r2,
                            d as int,
                        ),
                    forall|k: int|
                        0 <= k < s1.solutions@.len() ==> rank(codes((#[trigger] s1.solutions@[k])@), 60, 12)
                            <= s0.search_rank(),
                    forall|k1: int, k2: int|
                        0 <= k1 < k2 < s1.solutions@.len() ==> rank(
                            codes((#[trigger] s1.solutions@[k1])@),
                            60,
                            12,
                        ) < rank(codes((#[trigger] s1.solutions@[k2])@), 60, 12),
                    forall|i2: int, r2: int| !#[trigger] s0.deeper_candidate(i2, r2),
                    s2.pentas@ == s0.pentas@,
                    s0 == *old(self),
                    s2.solutions@ == s1.solutions@,
                    s0.solutions@.len() <= s1.solutions@.len(),
                    forall|k: int|
                        0 <= k < s0.solutions@.len() ==> #[trigger] s1.solutions@[k]
                            == s0.solutions@[k],
                    !s2.done,
                    valid_path(codes(s0.stack@), 60, 12),
                decreases 5 - rot,
            {
                if self.try_place(prev_i, rot) {
                    proof {
                        lemma_sideways_rank(s0.stack@, d as int, (prev_i, rot));
                        let q = s0.stack@;
                        assert forall|y: (usize, usize)|
                            y.0 < 12 && y.1 < 5 && choice_code(q[d as int]) < choice_code(y) && choice_code(y)
                                < choice_code((prev_i, rot)) && !ids(q.take(d as int)).contains(y.0)
                                implies !#[trigger] penta_fits(
                            layout(s0.pentas@, q.take(d as int)),
                            s0.pentas@[y.0 as int],
                            y.1 as int,
                            d as int,
                        ) by {
                            lemma_code_order(q[d as int], y);
                            lemma_code_order(y, (prev_i, rot));
                        }
                        lemma_sideways_success(s0.pentas@, s1.solutions@, q, d as int, (prev_i, rot));
                        assert(self.stack@ =~= q.take(d as int).push((prev_i, rot)));
                    }
                    return true;
                }
                rot += 1;
            }
            // ... or a higher pentagon not placed yet
            let mut i = prev_i + 1;
            while i < 12
                invariant
                    *self == s2,
                    s2.wf(),
                    s2.stack@.len() == d,
                    d < s0.stack@.len(),
                    s2.stack@ == s0.stack@.take(d as int),
                    s0.stack@[d as int] == (prev_i, prev_rot),
                    prev_rot < 5,
                    i > prev_i,
                    forall|sol: Seq<(usize, usize)>|
                        #[trigger] full_solution(s0.pentas@, sol) && left_of(sol, s0.stack@) ==> recorded_in(
                            s1.solutions@,
                            sol,
                        ),
                    forall|x: int| 0 <= x < s0.stack@.len() ==> (#[trigger] s0.stack@[x]).1 < 5,
                    forall|sol: Seq<(usize, usize)>|
                        #[trigger] full_solution(s0.pentas@, sol) && extends(sol, s0.stack@.take(d + 1))
                            ==> recorded_in(s1.solutions@, sol),
                    s2.facets@ == layout(s0.pentas@, s0.stack@.take(d as int)),
                    s2.used@ == ids(s0.stack@.take(d as int)),
                    forall|r2: int|
                        prev_rot < r2 < 5 ==> !#[trigger] penta_fits(
                            s2.facets@,
                            s0.pentas@[prev_i as int],
                            r2,
                            d as int,
                        ),
                    forall|i2: int, r2: int|
                        prev_i < i2 < i && 0 <= r2 < 5 && !s2.used@.contains(i2 as usize) ==> !#[trigger] penta_fits(
                            s2.facets@,
                            s0.pentas@[i2],
                            r2,
                            d as int,
                        ),
                    forall|k: int|
                        0 <= k < s1.solutions@.len() ==> rank(codes((#[trigger] s1.solutions@[k])@), 60, 12)
                            <= s0.search_rank(),
                    forall|k1: int, k2: int|
                        0 <= k1 < k2 < s1.solutions@.len() ==> rank(
                            codes((#[trigger] s1.solutions@[k1])@),
                            60,
                            12,
                        ) < rank(codes((#[trigger] s1.solutions@[k2])@), 60, 12),
                    forall|i2: int, r2: int| !#[trigger] s0.deeper_candidate(i2, r2),
                    s2.pentas@ == s0.pentas@,
                    s0 == *old(self),
                    s2.solutions@ == s1.solutions@,
                    s0.solutions@.len() <= s1.solutions@.len(),
                    forall|k: int|
                        0 <= k < s0.solutions@.len() ==> #[trigger] s1.solutions@[k]
                            == s0.solutions@[k],
                    !s2.done,
                    valid_path(codes(s0.stack@), 60, 12),
                decreases 12 - i,
            {
                if !self.used.contains(&i) {
                    let mut rot: usize = 0;
                    while rot < 5
                        invariant
                            *self == s2,
                            s2.wf(),
                            s2.stack@.len() == d,
                            d < s0.stack@.len(),
                            s2.stack@ == s0.stack@.take(d as int),
                            s0.stack@[d as int] == (prev_i, prev_rot),
                            prev_rot < 5,
                            prev_i < i < 12,
                            !s2.used@.contains(i),
                            forall|sol: Seq<(usize, usize)>|
                                #[trigger] full_solution(s0.pentas@, sol) && left_of(sol, s0.stack@) ==> recorded_in(
                                    s1.solutions@,
                                    sol,
                                ),
                            forall|x: int| 0 <= x < s0.stack@.len() ==> (#[trigger] s0.stack@[x]).1 < 5,
                            forall|sol: Seq<(usize, usize)>|
                                #[trigger] full_solution(s0.pentas@, sol) && extends(sol, s0.stack@.take(d + 1))
                                    ==> recorded_in(s1.solutions@, sol),
                            s2.facets@ == layout(s0.pentas@, s0.stack@.take(d as int)),
                            s2.used@ == ids(s0.stack@.take(d as int)),
                            forall|r2: int|
                                prev_rot < r2 < 5 ==> !#[trigger] penta_fits(
                                    s2.facets@,
                                    s0.pentas@[prev_i as int],
                                    r2,
                                    d as int,
                                ),
                            forall|i2: int, r2: int|
                                prev_i < i2 < i && 0 <= r2 < 5 && !s2.used@.contains(i2 as usize) ==> !#[trigger] penta_fits(
                                    s2.facets@,
                                    s0.pentas@[i2],
                                    r2,
                                    d as int,
                                ),
                            forall|r2: int|
                                0 <= r2 < rot ==> !#[trigger] penta_fits(
                                    s2.facets@,
                                    s0.pentas@[i as int],
                                    r2,
                                    d as int,
                                ),
                            forall|k: int|
                                0 <= k < s1.solutions@.len() ==> rank(codes((#[trigger] s1.solutions@[k])@), 60, 12)
                                    <= s0.search_rank(),
                            forall|k1: int, k2: int|
                                0 <= k1 < k2 < s1.solutions@.len() ==> rank(
                                    codes((#[trigger] s1.solutions@[k1])@),
                                    60,
                                    12,
                                ) < rank(codes((#[trigger] s1.solutions@[k2])@), 60, 12),
                            forall|i2: int, r2: int| !#[trigger] s0.deeper_candidate(i2, r2),
                            s2.pentas@ == s0.pentas@,
                            s0 == *old(self),
                            s2.solutions@ == s1.solutions@,
                            s0.solutions@.len() <= s1.solutions@.len(),
                            forall|k: int|
                                0 <= k < s0.solutions@.len() ==> #[trigger] s1.solutions@[k]
                                    == s0.solutions@[k],
                            !s2.done,
                            valid_path(codes(s0.stack@), 60, 12),
                        decreases 5 - rot,
                    {
                        if self.try_place(i, rot) {
                            proof {
                                lemma_sideways_rank(s0.stack@, d as int, (i, rot));
                                let q = s0.stack@;
                                assert forall|y: (usize, usize)|
                                    y.0 < 12 && y.1 < 5 && choice_code(q[d as int]) < choice_code(y)
                                        && choice_code(y) < choice_code((i, rot)) && !ids(
                                        q.take(d as int),
                                    ).contains(y.0) implies !#[trigger] penta_fits(
                                    layout(s0.pentas@, q.take(d as int)),
                                    s0.pentas@[y.0 as int],
                                    y.1 as int,
                                    d as int,
                                ) by {
                                    lemma_code_order(q[d as int], y);
                                    lemma_code_order(y, (i, rot));
                                    if y.0 == prev_i {
                                    } else if y.0 < i {
                                        assert(!s2.used@.contains(y.0));
                                    }
                                }
                                lemma_sideways_success(s0.pentas@, s1.solutions@, q, d as int, (i, rot));
                                assert(self.stack@ =~= q.take(d as int).push((i, rot)));
                            }
                            return true;
                        }
                        rot += 1;
                    }
                }
                i += 1;
            }
            proof {
                let q = s0.stack@;
                assert forall|y: (usize, usize)|
                    y.0 < 12 && y.1 < 5 && choice_code(q[d as int]) < choice_code(y) && !ids(
                        q.take(d as int),
                    ).contains(y.0) implies !#[trigger] penta_fits(
                    layout(s0.pentas@, q.take(d as int)),
                    s0.pentas@[y.0 as int],
                    y.1 as int,
                    d as int,
                ) by {
                    lemma_code_order(q[d as int], y);
                    if y.0 != prev_i {
                        assert(!s2.used@.contains(y.0));
                    }
                }
                lemma_sideways_exhausted(s0.pentas@, s1.solutions@, q, d as int);
            }
        }
        let ghost fin = *self;
        self.done = true;
        proof {
            assert forall|sol: Seq<(usize, usize)>|
                #[trigger] full_solution(self.pentas@, sol) implies recorded_in(self.solutions@, sol) by {
                assert(fin.stack@.len() == 1);
                assert(sol.take(1) =~= fin.stack@);
                assert(extends(sol, fin.stack@));
            }
        }
        false
    }
}

impl DodecaSolver {
    /// The facets of the dodecahedron; zero where empty.
    pub fn facets(&self) -> (r: [i32; 60])
        ensures
            r == self.facets,
    {
        self.facets
    }

    /// (pentagon, rotation) of each filled slot, from slot 0 on.
    pub fn stack(&self) -> (r: Vec<(usize, usize)>)
        ensures
            r@ == self.stack@,
    {
        let mut r: Vec<(usize, usize)> = Vec::new();
        let mut i: usize = 0;
        while i < self.stack.len()
            invariant
                i <= self.stack@.len(),
                r@ =~= self.stack@.take(i as int),
            decreases self.stack@.len() - i,
        {
            r.push(self.stack[i]);
            i += 1;
        }
        assert(self.stack@.take(i as int) =~= self.stack@);
        r
    }

    /// The complete assignments found so far.
    pub fn solutions(&self) -> (r: Vec<[(usize, usize); 12]>)
        ensures
            r@ == self.solutions@,
    {
        let mut r: Vec<[(usize, usize); 12]> = Vec::new();
        let mut i: usize = 0;
        while i < self.solutions.len()
            invariant
                i <= self.solutions@.len(),
                r@ =~= self.solutions@.take(i as int),
            decreases self.solutions@.len() - i,
        {
            r.push(self.solutions[i]);
            i += 1;
        }
        assert(self.solutions@.take(i as int) =~= self.solutions@);
        r
    }
}

/// In every state of the dodecahedral search, every triangle whose three
/// facets are filled sums to 96.
pub proof fn lemma_filled_triangles_sum(s: &DodecaSolver, t: int)
    requires
        s.wf(),
        0 <= t < 20,
        tri_full(s.facets@, t),
    ensures
        tri_sum(s.facets@, t) == 96,
{
}

/// Places twelve pentagons on the faces of a dodecahedron, each in one of
/// five rotations, pentagon 0 fixed on slot 0 in rotation 0, so that every
/// triangle of three neighbouring facets sums to 96. Returns every such
/// assignment, as (pentagon, rotation) per slot.
pub fn pentas_on_ico(pentas: &Vec<[i32; 5]>) -> (r: Vec<[(usize, usize); 12]>)
    requires
        pentas@.len() == 12,
        labels_filled(pentas@),
    ensures
        forall|k: int|
            0 <= k < r@.len() ==> is_solution(pentas@, (#[trigger] r@[k])@) && r@[k]@[0] == (
            0usize,
            0usize,
        ),
        // every complete assignment with pentagon 0 unturned on slot 0 is found
        forall|s: Seq<(usize, usize)>|
            #[trigger] full_solution(pentas@, s) ==> exists|k: int| 0 <= k < r@.len() && r@[k]@ == s,
        // each assignment is found once
        forall|k1: int, k2: int|
            0 <= k1 < r@.len() && 0 <= k2 < r@.len() && k1 != k2 ==> (#[trigger] r@[k1])@ != (
            #[trigger] r@[k2])@,
{
    let mut copy: Vec<[i32; 5]> = Vec::new();
    let mut i: usize = 0;
    while i < pentas.len()
        invariant
            i <= pentas@.len(),
            copy@ =~= pentas@.take(i as int),
        decreases pentas@.len() - i,
    {
        copy.push(pentas[i]);
        i += 1;
    }
    assert(pentas@.take(i as int) =~= pentas@);
    let mut solver = DodecaSolver::new(copy);
    loop
        invariant
            solver.wf(),
            solver.sols_ranked(),
            solver.exhaustive(),
            solver.pentas@ == pentas@,
        ensures
            solver.done,
        decreases tree_size(60, 12) - solver.search_rank(),
    {
        proof {
            lemma_search_rank_bound(&solver);
        }
        if !solver.step() {
            break;
        }
        proof {
            lemma_search_rank_bound(&solver);
        }
    }
    let r = solver.solutions();
    proof {
        assert forall|k1: int, k2: int|
            0 <= k1 < r@.len() && 0 <= k2 < r@.len() && k1 != k2 implies (#[trigger] r@[k1])@ != (
            #[trigger] r@[k2])@ by {
            if k1 < k2 {
                assert(rank(codes(solver.solutions@[k1]@), 60, 12) < rank(codes(solver.solutions@[k2]@), 60, 12));
            } else {
                assert(rank(codes(solver.solutions@[k2]@), 60, 12) < rank(codes(solver.solutions@[k1]@), 60, 12));
            }
        }
        assert forall|sol: Seq<(usize, usize)>| #[trigger] full_solution(pentas@, sol) implies exists|k: int|
            0 <= k < r@.len() && r@[k]@ == sol by {
            assert(recorded_in(solver.solutions@, sol));
        }
    }
    r
}

proof fn lemma_search_rank_bound(s: &DodecaSolver)
    requires
        s.wf(),
    ensures
        0 <= s.search_rank() < tree_size(60, 12),
{
    assert(valid_path(codes(s.stack@), 60, 12));
    lemma_rank_bound(codes(s.stack@), 60, 12);
}

/// A complete assignment with pentagon 0, unturned, on slot 0.
pub open spec fn full_solution(pentas: Seq<[i32; 5]>, s: Seq<(usize, usize)>) -> bool {
    is_solution(pentas, s) && s[0] == (0usize, 0usize)
}

pub open spec fn recorded_in(sols: Seq<[(usize, usize); 12]>, s: Seq<(usize, usize)>) -> bool {
    exists|k: int| 0 <= k < sols.len() && (#[trigger] sols[k])@ == s
}

/// `s` leaves the path `q` at slot `j` for a lower choice.
pub open spec fn branches_left(s: Seq<(usize, usize)>, q: Seq<(usize, usize)>, j: int) -> bool {
    &&& 0 <= j < q.len()
    &&& j < s.len()
    &&& s.take(j) == q.take(j)
    &&& choice_code(s[j]) < choice_code(q[j])
}

/// `s` lies to the left of the path `q` in the search tree.
pub open spec fn left_of(s: Seq<(usize, usize)>, q: Seq<(usize, usize)>) -> bool {
    exists|j: int| #[trigger] branches_left(s, q, j)
}

/// `s` starts with the path `q`.
pub open spec fn extends(s: Seq<(usize, usize)>, q: Seq<(usize, usize)>) -> bool {
    q.len() <= s.len() && s.take(q.len() as int) == q
}

impl DodecaSolver {
    /// Every complete assignment the search has passed is recorded: those
    /// to the left of the current path, and all of them once it is done.
    pub open spec fn exhaustive(&self) -> bool {
        &&& !self.done ==> forall|s: Seq<(usize, usize)>|
            #[trigger] full_solution(self.pentas@, s) && left_of(s, self.stack@) ==> recorded_in(
                self.solutions@,
                s,
            )
        &&& self.done ==> forall|s: Seq<(usize, usize)>|
            #[trigger] full_solution(self.pentas@, s) ==> recorded_in(self.solutions@, s)
    }
}

/// Each slot of a complete assignment passes the check that the search
/// makes when it places the slot's pentagon.
proof fn lemma_solution_step(pentas: Seq<[i32; 5]>, s: Seq<(usize, usize)>, j: int)
    requires
        pentas.len() == 12,
        is_solution(pentas, s),
        0 <= j < 12,
    ensures
        penta_fits(layout(pentas, s.take(j)), pentas[s[j].0 as int], s[j].1 as int, j),
        !ids(s.take(j)).contains(s[j].0),
        s[j].0 < 12,
        s[j].1 < 5,
{
    let q = s.take(j);
    let lq = layout(pentas, q);
    let ls = layout(pentas, s);
    let penta = pentas[s[j].0 as int];
    assert forall|r: int| 0 <= r < 5 implies #[trigger] facet_ok(
        lq,
        5 * j + r,
        slot_value(penta, s[j].1 as int, r),
    ) by {
        let f = 5 * j + r;
        lemma_facet_table(f);
        let t = FACETS[f].1 as int;
        lemma_triangle_table(t);
        assert(f / 5 == j && f % 5 == r);
        assert(lq[f] == 0);
        assert(ls[f] == slot_value(penta, s[j].1 as int, r));
        if others_full(lq, f) {
            assert forall|x: int| 0 <= x < 3 implies lq[#[trigger] TRI_TO_FACETS[t][x] as int]
                == ls[TRI_TO_FACETS[t][x] as int] || TRI_TO_FACETS[t][x] == f by {
                let g = TRI_TO_FACETS[t][x] as int;
                if g != f {
                    assert(lq[g] != 0);
                    assert(g / 5 < j);
                    assert(q[g / 5] == s[g / 5]);
                }
            }
            assert(tri_sum(ls, t) == 96);
        }
    }
    if ids(q).contains(s[j].0) {
        let x = choose|x: int| 0 <= x < q.len() && (#[trigger] q[x]).0 == s[j].0;
        assert(s[x] == q[x]);
    }
}

/// A complete assignment that starts with the path `q` passes, at the next
/// slot, the check of the search.
proof fn lemma_next_candidate(
    pentas: Seq<[i32; 5]>,
    s: Seq<(usize, usize)>,
    q: Seq<(usize, usize)>,
)
    requires
        pentas.len() == 12,
        is_solution(pentas, s),
        extends(s, q),
        q.len() < 12,
    ensures
        penta_fits(layout(pentas, q), pentas[s[q.len() as int].0 as int], s[q.len() as int].1 as int, q.len() as int),
        !ids(q).contains(s[q.len() as int].0),
        s[q.len() as int].0 < 12,
        s[q.len() as int].1 < 5,
{
    lemma_solution_step(pentas, s, q.len() as int);
}

proof fn lemma_code_order(a: (usize, usize), b: (usize, usize))
    requires
        a.1 < 5,
        b.1 < 5,
    ensures
        choice_code(a) == choice_code(b) <==> a == b,
        choice_code(a) < choice_code(b) <==> (a.0 < b.0 || (a.0 == b.0 && a.1 < b.1)),
{
}

/// When the next slot of `q` has no fitting candidate below the code `c`
/// (above the code `lo`), no complete assignment going through `q` takes
/// such a candidate there; the others are sorted by how they compare with
/// the old path `old_q`.
proof fn lemma_sideways_cover(
    pentas: Seq<[i32; 5]>,
    sols: Seq<[(usize, usize); 12]>,
    old_q: Seq<(usize, usize)>,
    d: int,
    s: Seq<(usize, usize)>,
)
    requires
        pentas.len() == 12,
        0 <= d < old_q.len() <= 12,
        forall|x: int| 0 <= x < old_q.len() ==> (#[trigger] old_q[x]).1 < 5,
        full_solution(pentas, s),
        extends(s, old_q.take(d)),
        forall|s2: Seq<(usize, usize)>|
            #[trigger] full_solution(pentas, s2) && left_of(s2, old_q) ==> recorded_in(sols, s2),
        forall|s2: Seq<(usize, usize)>|
            #[trigger] full_solution(pentas, s2) && extends(s2, old_q.take(d + 1)) ==> recorded_in(
                sols,
                s2,
            ),
        choice_code(s[d]) <= choice_code(old_q[d]),
    ensures
        recorded_in(sols, s),
{
    lemma_solution_step(pentas, s, d);
    lemma_code_order(s[d], old_q[d]);
    if choice_code(s[d]) < choice_code(old_q[d]) {
        assert(s.take(d) =~= old_q.take(d));
        assert(branches_left(s, old_q, d));
    } else {
        assert(s[d] == old_q[d]);
        assert(s.take(d + 1) =~= old_q.take(d + 1));
    }
}

/// Moving sideways at slot `d` of `old_q` to `x`, past no fitting candidate,
/// leaves no unrecorded complete assignment to the left of the new path.
proof fn lemma_sideways_success(
    pentas: Seq<[i32; 5]>,
    sols: Seq<[(usize, usize); 12]>,
    old_q: Seq<(usize, usize)>,
    d: int,
    x: (usize, usize),
)
    requires
        pentas.len() == 12,
        0 <= d < old_q.len() <= 12,
        forall|k: int| 0 <= k < old_q.len() ==> (#[trigger] old_q[k]).1 < 5,
        x.1 < 5,
        forall|s2: Seq<(usize, usize)>|
            #[trigger] full_solution(pentas, s2) && left_of(s2, old_q) ==> recorded_in(sols, s2),
        forall|s2: Seq<(usize, usize)>|
            #[trigger] full_solution(pentas, s2) && extends(s2, old_q.take(d + 1)) ==> recorded_in(
                sols,
                s2,
            ),
        forall|y: (usize, usize)|
            y.0 < 12 && y.1 < 5 && choice_code(old_q[d]) < choice_code(y) && choice_code(y)
                < choice_code(x) && !ids(old_q.take(d)).contains(y.0) ==> !#[trigger] penta_fits(
                layout(pentas, old_q.take(d)),
                pentas[y.0 as int],
                y.1 as int,
                d,
            ),
    ensures
        forall|s: Seq<(usize, usize)>|
            #[trigger] full_solution(pentas, s) && left_of(s, old_q.take(d).push(x)) ==> recorded_in(
                sols,
                s,
            ),
{
    let nq = old_q.take(d).push(x);
    assert forall|s: Seq<(usize, usize)>|
        #[trigger] full_solution(pentas, s) && left_of(s, nq) implies recorded_in(sols, s) by {
        let j = choose|j: int| #[trigger] branches_left(s, nq, j);
        if j < d {
            assert(nq.take(j) =~= old_q.take(j));
            assert(nq[j] == old_q[j]);
            assert(branches_left(s, old_q, j));
        } else {
            assert(nq.take(d) =~= old_q.take(d));
            assert(extends(s, old_q.take(d)));
            lemma_next_candidate(pentas, s, old_q.take(d));
            lemma_code_order(s[d], old_q[d]);
            if choice_code(old_q[d]) < choice_code(s[d]) {
                assert(!penta_fits(
                    layout(pentas, old_q.take(d)),
                    pentas[s[d].0 as int],
                    s[d].1 as int,
                    d,
                ));
            }
            lemma_sideways_cover(pentas, sols, old_q, d, s);
        }
    }
}

/// Leaving slot `d` of `old_q` with no fitting candidate after it: every
/// complete assignment through the shorter path is recorded.
proof fn lemma_sideways_exhausted(
    pentas: Seq<[i32; 5]>,
    sols: Seq<[(usize, usize); 12]>,
    old_q: Seq<(usize, usize)>,
    d: int,
)
    requires
        pentas.len() == 12,
        0 <= d < old_q.len() <= 12,
        forall|k: int| 0 <= k < old_q.len() ==> (#[trigger] old_q[k]).1 < 5,
        forall|s2: Seq<(usize, usize)>|
            #[trigger] full_solution(pentas, s2) && left_of(s2, old_q) ==> recorded_in(sols, s2),
        forall|s2: Seq<(usize, usize)>|
            #[trigger] full_solution(pentas, s2) && extends(s2, old_q.take(d + 1)) ==> recorded_in(
                sols,
                s2,
            ),
        forall|y: (usize, usize)|
            y.0 < 12 && y.1 < 5 && choice_code(old_q[d]) < choice_code(y) && !ids(
                old_q.take(d),
            ).contains(y.0) ==> !#[trigger] penta_fits(
                layout(pentas, old_q.take(d)),
                pentas[y.0 as int],
                y.1 as int,
                d,
            ),
    ensures
        forall|s: Seq<(usize, usize)>|
            #[trigger] full_solution(pentas, s) && extends(s, old_q.take(d)) ==> recorded_in(sols, s),
{
    assert forall|s: Seq<(usize, usize)>|
        #[trigger] full_solution(pentas, s) && extends(s, old_q.take(d)) implies recorded_in(
        sols,
        s,
    ) by {
        lemma_next_candidate(pentas, s, old_q.take(d));
        if choice_code(old_q[d]) < choice_code(s[d]) {
            assert(!penta_fits(layout(pentas, old_q.take(d)), pentas[s[d].0 as int], s[d].1 as int, d));
        }
        lemma_sideways_cover(pentas, sols, old_q, d, s);
    }
}

} // verus!
