use vstd::prelude::*;

verus! {

// A depth-first search walks the tree of choice paths in preorder. A path is
// a sequence of choice codes, each below `m`, of length at most `n`. Its
// preorder rank grows with every move the search makes (going deeper, moving
// sideways, or backtracking and then moving sideways), and stays below the
// size of the whole tree: this is what makes each search loop terminate.

/// Number of paths of length at most `k` in the tree of branching `m`.
pub open spec fn tree_size(m: nat, k: nat) -> nat
    decreases k,
{
    if k == 0 {
        1
    } else {
        1 + m * tree_size(m, (k - 1) as nat)
    }
}

/// Preorder rank of the path `s` in the tree of branching `m` and depth `n`.
pub open spec fn rank(s: Seq<nat>, m: nat, n: nat) -> int
    decreases s.len(),
{
    if s.len() == 0 {
        0
    } else {
        rank(s.drop_last(), m, n) + 1 + s.last() * tree_size(m, (n - s.len()) as nat)
    }
}

/// Every code of the path is below `m`, and the path is at most `n` long.
pub open spec fn valid_path(s: Seq<nat>, m: nat, n: nat) -> bool {
    &&& s.len() <= n
    &&& forall|i: int| 0 <= i < s.len() ==> #[trigger] s[i] < m
}

pub proof fn lemma_tree_size_positive(m: nat, k: nat)
    ensures
        tree_size(m, k) >= 1,
{
    if k > 0 {
        assert(m * tree_size(m, (k - 1) as nat) >= 0) by (nonlinear_arith);
    }
}

pub proof fn lemma_rank_nonnegative(s: Seq<nat>, m: nat, n: nat)
    ensures
        rank(s, m, n) >= 0,
    decreases s.len(),
{
    if s.len() > 0 {
        lemma_rank_nonnegative(s.drop_last(), m, n);
        let t = tree_size(m, (n - s.len()) as nat);
        assert(s.last() * t >= 0) by (nonlinear_arith);
    }
}

/// Going one level deeper raises the rank.
pub proof fn lemma_rank_push(s: Seq<nat>, c: nat, m: nat, n: nat)
    ensures
        rank(s.push(c), m, n) > rank(s, m, n),
{
    assert(s.push(c).drop_last() =~= s);
    let t = tree_size(m, (n - s.len() - 1) as nat);
    assert(c * t >= 0) by (nonlinear_arith);
}

/// What a path adds to the rank of one of its prefixes is less than the size
/// of the subtree under that prefix.
proof fn lemma_rank_tail(q: Seq<nat>, j: int, m: nat, n: nat)
    requires
        valid_path(q, m, n),
        0 <= j <= q.len(),
    ensures
        rank(q, m, n) - rank(q.take(j), m, n) <= tree_size(m, (n - j) as nat) - tree_size(
            m,
            (n - q.len()) as nat,
        ),
    decreases q.len() - j,
{
    if j == q.len() {
        assert(q.take(j) =~= q);
    } else {
        let p = q.drop_last();
        assert(valid_path(p, m, n));
        lemma_rank_tail(p, j, m, n);
        assert(p.take(j) =~= q.take(j));
        let k = (n - q.len()) as nat;
        let t = tree_size(m, k);
        let c = q.last();
        assert(c < m);
        assert(tree_size(m, (k + 1) as nat) == 1 + m * t);
        assert((n - p.len()) as nat == k + 1);
        assert(c * t <= (m - 1) * t) by (nonlinear_arith)
            requires
                c < m,
        ;
        assert((m - 1) * t == m * t - t) by (nonlinear_arith);
    }
}

/// Backtracking to level `j` and then choosing a higher code there raises
/// the rank.
pub proof fn lemma_rank_sideways(q: Seq<nat>, j: int, c: nat, m: nat, n: nat)
    requires
        valid_path(q, m, n),
        0 <= j < q.len(),
        c > q[j],
    ensures
        rank(q.take(j).push(c), m, n) > rank(q, m, n),
{
    lemma_rank_tail(q, j + 1, m, n);
    lemma_tree_size_positive(m, (n - q.len()) as nat);
    let u = q.take(j);
    let u1 = q.take(j + 1);
    assert(u1.drop_last() =~= u);
    assert(u.push(c).drop_last() =~= u);
    let t = tree_size(m, (n - j - 1) as nat);
    assert(c * t >= q[j] * t + t) by (nonlinear_arith)
        requires
            c > q[j],
            t >= 0,
    ;
}

/// The rank stays below the size of the whole tree.
pub proof fn lemma_rank_bound(q: Seq<nat>, m: nat, n: nat)
    requires
        valid_path(q, m, n),
    ensures
        0 <= rank(q, m, n) < tree_size(m, n),
{
    lemma_rank_tail(q, 0, m, n);
    lemma_rank_nonnegative(q, m, n);
    lemma_tree_size_positive(m, (n - q.len()) as nat);
    assert(q.take(0) =~= Seq::<nat>::empty());
}

} // verus!
