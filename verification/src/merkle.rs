//! Merkle trees over domain elements, with verified openings.
//!
//! A tree stores every level it was built from; an opening is the list of
//! sibling groups from the leaf up. Folding an opening recomputes the root,
//! and `prove_leaf` is proved to produce openings that fold to the stored
//! root.
use vstd::prelude::*;
use crate::hashing::{Domain, views, all_wf, compress, compress_of, dup_all, TAG_NODE};

verus! {

/// One level of a Merkle opening: the node's siblings within its group and
/// the node's position inside that group.
pub struct PathElement {
    /// The sibling values, in group order with the node itself left out.
    pub siblings: Vec<Domain>,
    /// The node's position within its group.
    pub position: usize,
}

/// The views of an element's sibling values.
pub open spec fn sib_views(e: PathElement) -> Seq<Seq<u8>> {
    views(e.siblings@)
}

/// A path element fits a tree of the given arity.
pub open spec fn elem_wf(e: PathElement, arity: int) -> bool {
    &&& e.siblings@.len() == arity - 1
    &&& e.position < arity
    &&& all_wf(e.siblings@)
}

/// The sibling sequence with the node's own value put back at its position.
pub open spec fn insert_at(sibs: Seq<Seq<u8>>, pos: int, leaf: Seq<u8>) -> Seq<Seq<u8>> {
    sibs.take(pos) + seq![leaf] + sibs.skip(pos)
}

/// One step of recomputation: compress the node's group.
pub open spec fn hash_elem(leaf: Seq<u8>, e: PathElement) -> Seq<u8> {
    compress_of(TAG_NODE, insert_at(sib_views(e), e.position as int, leaf))
}

/// Recompute the root from a leaf and an opening, bottom up.
pub open spec fn fold_path(leaf: Seq<u8>, path: Seq<PathElement>) -> Seq<u8>
    decreases path.len(),
{
    if path.len() == 0 {
        leaf
    } else {
        fold_path(hash_elem(leaf, path[0]), path.skip(1))
    }
}

/// Folding one more element hashes the folded value once more.
pub proof fn lemma_fold_path_push(leaf: Seq<u8>, path: Seq<PathElement>, e: PathElement)
    ensures
        fold_path(leaf, path.push(e)) == hash_elem(fold_path(leaf, path), e),
    decreases path.len(),
{
    if path.len() == 0 {
        assert(path.push(e)[0] == e);
        assert(path.push(e).skip(1) =~= Seq::<PathElement>::empty());
        assert(fold_path(leaf, path.push(e)) == fold_path(
            hash_elem(leaf, e),
            Seq::<PathElement>::empty(),
        ));
        assert(fold_path(hash_elem(leaf, e), Seq::<PathElement>::empty()) == hash_elem(leaf, e));
        assert(fold_path(leaf, path) == leaf);
    } else {
        assert(path.push(e)[0] == path[0]);
        assert(path.push(e).skip(1) =~= path.skip(1).push(e));
        lemma_fold_path_push(hash_elem(leaf, path[0]), path.skip(1), e);
        assert(fold_path(leaf, path.push(e)) == fold_path(
            hash_elem(leaf, path[0]),
            path.skip(1).push(e),
        ));
        assert(fold_path(leaf, path) == fold_path(hash_elem(leaf, path[0]), path.skip(1)));
    }
}

/// A path element whose position does not run past its siblings.
pub open spec fn elem_in_bounds(e: PathElement) -> bool {
    e.position <= e.siblings@.len()
}

/// Compress one opening step.
fn hash_elem_exec(leaf: &Domain, e: &PathElement) -> (r: Domain)
    requires
        e.position <= e.siblings@.len(),
    ensures
        r@ == hash_elem(leaf@, *e),
        r.wf(),
{
    let pos = e.position;
    let n = e.siblings.len();
    let mut group: Vec<Domain> = Vec::new();
    let mut j: usize = 0;
    while j < pos
        invariant
            j <= pos,
            pos <= n,
            n == e.siblings@.len(),
            group@.len() == j,
            forall|m: int| 0 <= m < j ==> group@[m]@ == e.siblings@[m]@,
        decreases pos - j,
    {
        group.push(e.siblings[j].dup());
        j += 1;
    }
    group.push(leaf.dup());
    let mut j: usize = pos;
    while j < n
        invariant
            pos <= j <= n,
            n == e.siblings@.len(),
            group@.len() == j + 1,
            forall|m: int| 0 <= m < pos ==> group@[m]@ == e.siblings@[m]@,
            group@[pos as int]@ == leaf@,
            forall|m: int| pos < m <= j ==> group@[m]@ == e.siblings@[m - 1]@,
        decreases n - j,
    {
        group.push(e.siblings[j].dup());
        j += 1;
    }
    proof {
        let ins = insert_at(sib_views(*e), pos as int, leaf@);
        assert forall|m: int| 0 <= m < ins.len() implies views(group@)[m] == ins[m] by {
            if m < pos {
                assert(ins[m] == sib_views(*e)[m]);
            } else if m == pos {
                assert(ins[m] == leaf@);
            } else {
                assert(ins[m] == sib_views(*e)[m - 1]);
            }
        }
        assert(views(group@) =~= ins);
    }
    compress(TAG_NODE, &group)
}

/// Recompute the root from a leaf and an opening.
pub fn fold(leaf: &Domain, path: &Vec<PathElement>) -> (r: Domain)
    requires
        forall|i: int| 0 <= i < path@.len() ==> elem_in_bounds(#[trigger] path@[i]),
    ensures
        r@ == fold_path(leaf@, path@),
        path@.len() > 0 ==> r.wf(),
        path@.len() == 0 ==> r@ == leaf@,
{
    let mut acc = leaf.dup();
    let n = path.len();
    let mut i: usize = 0;
    assert(path@.skip(0) =~= path@);
    while i < n
        invariant
            i <= n,
            n == path@.len(),
            forall|k: int| 0 <= k < path@.len() ==> elem_in_bounds(#[trigger] path@[k]),
            fold_path(leaf@, path@) == fold_path(acc@, path@.skip(i as int)),
            i > 0 ==> acc.wf(),
            i == 0 ==> acc@ == leaf@,
        decreases n - i,
    {
        proof {
            assert(path@.skip(i as int)[0] == path@[i as int]);
            assert(path@.skip(i as int).skip(1) =~= path@.skip(i + 1));
        }
        acc = hash_elem_exec(&acc, &path[i]);
        i += 1;
    }
    assert(path@.skip(n as int) =~= Seq::<PathElement>::empty());
    acc
}

/// Whether an opening authenticates a leaf against a root.
pub open spec fn path_checks(leaf: Seq<u8>, path: Seq<PathElement>, root: Seq<u8>) -> bool {
    fold_path(leaf, path) == root
}

/// Check an opening against a root.
pub fn verify_inclusion(leaf: &Domain, path: &Vec<PathElement>, root: &Domain) -> (r: bool)
    requires
        forall|i: int| 0 <= i < path@.len() ==> elem_in_bounds(#[trigger] path@[i]),
    ensures
        r == path_checks(leaf@, path@, root@),
{
    let folded = fold(leaf, path);
    folded.eq_value(root)
}

/// One level folded up: each group of `arity` nodes compressed to one.
pub open spec fn level_up(s: Seq<Seq<u8>>, arity: int) -> Seq<Seq<u8>> {
    Seq::new(
        (((s.len() as int) / arity) as nat),
        |g: int| compress_of(TAG_NODE, s.subrange(g * arity, (g + 1) * arity)),
    )
}

/// Whether a leaf count folds down to a single root at the given arity.
pub open spec fn chunks_ok(n: int, arity: int) -> bool
    decreases n,
    when arity >= 2 && n >= 1
    via chunks_ok_decreases
{
    if n == 1 {
        true
    } else {
        n % arity == 0 && chunks_ok(n / arity, arity)
    }
}

#[via_fn]
proof fn chunks_ok_decreases(n: int, arity: int) {
    if n != 1 {
        assert(n / arity < n) by (nonlinear_arith)
            requires
                arity >= 2,
                n >= 2,
        ;
        assert(n / arity >= 0) by (nonlinear_arith)
            requires
                arity >= 2,
                n >= 2,
        ;
    }
}

/// A Merkle tree: every level, leaves first, root level last.
pub struct MerkleTree {
    /// Group size of the tree.
    pub arity: usize,
    /// The levels, each the fold of the one before it.
    pub levels: Vec<Vec<Domain>>,
}

impl MerkleTree {
    /// Structural well-formedness: each level is the previous one folded up,
    /// and the last level is a single root.
    pub open spec fn wf(self) -> bool {
        &&& self.arity >= 2
        &&& self.levels@.len() >= 1
        &&& self.levels@.last()@.len() == 1
        &&& forall|l: int| 0 <= l < self.levels@.len() ==> all_wf(#[trigger] self.levels@[l]@)
        &&& forall|l: int|
            0 <= l < self.levels@.len() - 1 ==> (#[trigger] self.levels@[l]@.len() as int) % (
            self.arity as int) == 0 && self.levels@[l]@.len() >= 1
        &&& forall|l: int|
            0 <= l < self.levels@.len() - 1 ==> views(#[trigger] self.levels@[l + 1]@) == level_up(
                views(self.levels@[l]@),
                self.arity as int,
            )
    }

    /// The leaf values.
    pub open spec fn leaves(self) -> Seq<Seq<u8>> {
        views(self.levels@[0]@)
    }

    /// The number of leaves.
    pub open spec fn leaf_count(self) -> int {
        self.levels@[0]@.len() as int
    }

    /// The root value.
    pub open spec fn root_view(self) -> Seq<u8> {
        self.levels@.last()@[0]@
    }

    /// The root of the tree.
    pub fn root(&self) -> (r: Domain)
        requires
            self.wf(),
        ensures
            r@ == self.root_view(),
            r.wf(),
    {
        let last = self.levels.len() - 1;
        self.levels[last][0].dup()
    }

    /// Build a tree over the given leaves. Fails exactly when the leaf
    /// count does not fold down to a single root at the given arity.
    pub fn new(leaves: &Vec<Domain>, arity: usize) -> (r: Option<MerkleTree>)
        requires
            all_wf(leaves@),
        ensures
            r is Some <==> (arity >= 2 && leaves@.len() >= 1 && chunks_ok(
                leaves@.len() as int,
                arity as int,
            )),
            r is Some ==> (r->0).wf() && (r->0).arity == arity && (r->0).leaves() == views(leaves@)
                && (r->0).root_view() == tree_root_of(views(leaves@), arity as int),
    {
        if arity < 2 || leaves.len() == 0 {
            return None;
        }
        let ghost leaves0 = leaves@;
        let mut levels: Vec<Vec<Domain>> = Vec::new();
        let mut cur_len = leaves.len();
        let level0 = dup_all(leaves);
        proof {
            assert(views(level0@) =~= views(leaves@));
        }
        levels.push(level0);
        while cur_len > 1
            invariant
                arity >= 2,
                leaves0 == leaves@,
                levels@.len() >= 1,
                views(levels@[0]@) == views(leaves0),
                levels@[0]@.len() == leaves0.len(),
                cur_len == levels@.last()@.len(),
                cur_len >= 1,
                all_wf(leaves0),
                forall|l: int| 0 <= l < levels@.len() ==> all_wf(#[trigger] levels@[l]@),
                forall|l: int|
                    0 <= l < levels@.len() - 1 ==> (#[trigger] levels@[l]@.len() as int) % (
                    arity as int) == 0 && levels@[l]@.len() >= 1,
                forall|l: int|
                    0 <= l < levels@.len() - 1 ==> views(#[trigger] levels@[l + 1]@) == level_up(
                        views(levels@[l]@),
                        arity as int,
                    ),
                chunks_ok(leaves0.len() as int, arity as int) == chunks_ok(
                    cur_len as int,
                    arity as int,
                ),
                tree_root_of(views(leaves0), arity as int) == tree_root_of(
                    views(levels@.last()@),
                    arity as int,
                ),
            decreases cur_len,
        {
            if cur_len % arity != 0 {
                assert(!chunks_ok(cur_len as int, arity as int));
                assert(!chunks_ok(leaves0.len() as int, arity as int));
                return None;
            }
            let groups = cur_len / arity;
            let last_idx = levels.len() - 1;
            let mut next: Vec<Domain> = Vec::new();
            let ghost cur = views(levels@.last()@);
            let mut g: usize = 0;
            proof {
                assert(cur_len as int == (arity as int) * (groups as int)) by (nonlinear_arith)
                    requires
                        (cur_len as int) % (arity as int) == 0,
                        groups == cur_len as int / arity as int,
                        arity >= 2,
                        cur_len >= 1,
                ;
                assert(groups >= 1) by (nonlinear_arith)
                    requires
                        cur_len as int == (arity as int) * (groups as int),
                        arity >= 2,
                        cur_len >= 1,
                ;
            }
            while g < groups
                invariant
                    arity >= 2,
                    groups as int == (cur.len() as int) / (arity as int),
                    cur_len == cur.len(),
                    cur_len as int == (arity as int) * (groups as int),
                    g <= groups,
                    levels@.len() == last_idx + 1,
                    cur == views(levels@.last()@),
                    all_wf(levels@.last()@),
                    next@.len() == g,
                    all_wf(next@),
                    forall|m: int|
                        0 <= m < g ==> next@[m]@ == level_up(cur, arity as int)[m],
                decreases groups - g,
            {
                let mut group: Vec<Domain> = Vec::new();
                let mut j: usize = 0;
                proof {
                    assert((g as int) * (arity as int) + (arity as int) <= cur_len as int)
                        by (nonlinear_arith)
                        requires
                            cur_len as int == (arity as int) * (groups as int),
                            g < groups,
                            arity >= 2,
                    ;
                    assert((g as int) * (arity as int) >= 0) by (nonlinear_arith)
                        requires
                            g >= 0,
                            arity >= 2,
                    ;
                }
                let base = g * arity;
                while j < arity
                    invariant
                        j <= arity,
                        base as int == (g as int) * (arity as int),
                        base + arity <= cur_len,
                        cur_len == levels@.last()@.len(),
                        cur == views(levels@.last()@),
                        all_wf(levels@.last()@),
                        levels@.len() == last_idx + 1,
                        group@.len() == j,
                        all_wf(group@),
                        forall|m: int| 0 <= m < j ==> group@[m]@ == cur[base + m],
                    decreases arity - j,
                {
                    group.push(levels[last_idx][base + j].dup());
                    j += 1;
                }
                proof {
                    let lo = (g as int) * (arity as int);
                    let hi = (g as int + 1) * (arity as int);
                    assert((g as int + 1) * (arity as int) == (g as int) * (arity as int) + (
                    arity as int)) by (nonlinear_arith);
                    assert(lo == base as int && hi == base as int + arity as int);
                    assert forall|m: int| 0 <= m < (arity as int) implies views(group@)[m]
                        == cur.subrange(lo, hi)[m] by {
                        assert(views(group@)[m] == group@[m]@);
                        assert(cur.subrange(lo, hi)[m] == cur[lo + m]);
                    }
                    assert(views(group@) =~= cur.subrange(lo, hi));
                }
                let node = compress(TAG_NODE, &group);
                next.push(node);
                g += 1;
            }
            proof {
                assert forall|m: int| 0 <= m < level_up(cur, arity as int).len() implies views(
                    next@,
                )[m] == level_up(cur, arity as int)[m] by {
                    assert(views(next@)[m] == next@[m]@);
                }
                assert(views(next@) =~= level_up(cur, arity as int));
                assert(chunks_ok(cur_len as int, arity as int) == chunks_ok(
                    groups as int,
                    arity as int,
                ));
                assert(tree_root_of(cur, arity as int) == tree_root_of(
                    level_up(cur, arity as int),
                    arity as int,
                ));
                assert(groups < cur_len) by (nonlinear_arith)
                    requires
                        cur_len as int == (arity as int) * (groups as int),
                        arity >= 2,
                        groups >= 1,
                ;
            }
            let next_len = next.len();
            levels.push(next);
            cur_len = next_len;
            proof {
                assert(level_up(cur, arity as int).len() == groups as int);
            }
        }
        proof {
            assert(chunks_ok(1int, arity as int));
            assert(tree_root_of(views(levels@.last()@), arity as int) == views(
                levels@.last()@,
            )[0]);
        }
        Some(MerkleTree { arity, levels })
    }

    /// Open one leaf: the returned path folds the leaf back to the root.
    pub fn prove_leaf(&self, index: usize) -> (r: Vec<PathElement>)
        requires
            self.wf(),
            index < self.leaf_count(),
        ensures
            r@.len() == self.levels@.len() - 1,
            forall|i: int| 0 <= i < r@.len() ==> elem_wf(#[trigger] r@[i], self.arity as int),
            fold_path(self.leaves()[index as int], r@) == self.root_view(),
    {
        let height = self.levels.len() - 1;
        let arity = self.arity;
        let mut path: Vec<PathElement> = Vec::new();
        let mut idx = index;
        let mut l: usize = 0;
        while l < height
            invariant
                self.wf(),
                arity == self.arity,
                height == self.levels@.len() - 1,
                l <= height,
                idx < self.levels@[l as int]@.len(),
                path@.len() == l,
                forall|i: int| 0 <= i < path@.len() ==> elem_wf(#[trigger] path@[i], arity as int),
                fold_path(self.leaves()[index as int], path@)
                    == self.levels@[l as int]@[idx as int]@,
            decreases height - l,
        {
            let ghost cur = views(self.levels@[l as int]@);
            let cur_len = self.levels[l].len();
            let g = idx / arity;
            let pos = idx % arity;
            proof {
                vstd::arithmetic::div_mod::lemma_fundamental_div_mod(idx as int, arity as int);
                assert((g as int) * (arity as int) + (arity as int) <= cur_len as int)
                    by (nonlinear_arith)
                    requires
                        (cur_len as int) % (arity as int) == 0,
                        idx as int == (arity as int) * (g as int) + (pos as int),
                        0 <= pos < arity,
                        idx < cur_len,
                        arity >= 2,
                ;
                assert((g as int) * (arity as int) >= 0) by (nonlinear_arith)
                    requires
                        g >= 0,
                        arity >= 2,
                ;
                assert((g as int) < (cur.len() as int) / (arity as int)) by (nonlinear_arith)
                    requires
                        (g as int) * (arity as int) + (arity as int) <= cur.len(),
                        cur.len() == cur_len,
                        arity >= 2,
                        g >= 0,
                ;
            }
            let base = g * arity;
            let mut sibs: Vec<Domain> = Vec::new();
            let mut j: usize = 0;
            while j < arity
                invariant
                    j <= arity,
                    pos < arity,
                    base as int == (g as int) * (arity as int),
                    base + arity <= cur_len,
                    l < self.levels@.len(),
                    cur_len == self.levels@[l as int]@.len(),
                    cur == views(self.levels@[l as int]@),
                    all_wf(self.levels@[l as int]@),
                    sibs@.len() == (if j <= pos {
                        j as int
                    } else {
                        j - 1
                    }),
                    all_wf(sibs@),
                    forall|m: int|
                        0 <= m < sibs@.len() ==> sibs@[m]@ == cur[base + (if m < pos {
                            m
                        } else {
                            m + 1
                        })],
                decreases arity - j,
            {
                if j != pos {
                    sibs.push(self.levels[l][base + j].dup());
                }
                j += 1;
            }
            let elem = PathElement { siblings: sibs, position: pos };
            proof {
                let leaf_val = cur[idx as int];
                let ins = insert_at(sib_views(elem), pos as int, leaf_val);
                assert(idx as int == base + pos);
                let lo = (g as int) * (arity as int);
                let hi = (g as int + 1) * (arity as int);
                assert((g as int + 1) * (arity as int) == (g as int) * (arity as int) + (
                arity as int)) by (nonlinear_arith);
                assert(lo == base as int && hi == base as int + arity as int);
                assert forall|m: int| 0 <= m < ins.len() implies ins[m] == cur.subrange(
                    lo,
                    hi,
                )[m] by {
                    assert(cur.subrange(lo, hi)[m] == cur[lo + m]);
                    if m < pos {
                        assert(ins[m] == sib_views(elem)[m]);
                        assert(sib_views(elem)[m] == elem.siblings@[m]@);
                    } else if m == pos {
                        assert(ins[m] == leaf_val);
                        assert(idx as int == lo + pos);
                    } else {
                        assert(ins[m] == sib_views(elem)[m - 1]);
                        assert(sib_views(elem)[m - 1] == elem.siblings@[m - 1]@);
                    }
                }
                assert(ins =~= cur.subrange(lo, hi));
                assert(hash_elem(leaf_val, elem) == level_up(cur, arity as int)[g as int]);
                lemma_fold_path_push(self.leaves()[index as int], path@, elem);
                assert(views(self.levels@[l + 1]@) == level_up(cur, arity as int));
            }
            path.push(elem);
            idx = g;
            l += 1;
            proof {
                assert(level_up(cur, arity as int).len() == (cur.len() as int) / (arity as int));
                assert(idx < self.levels@[l as int]@.len());
            }
        }
        proof {
            assert(l == height);
            assert(self.levels@.last() == self.levels@[height as int]);
            assert(idx == 0);
        }
        path
    }
}

/// The root determined by a leaf sequence alone: fold levels until one
/// node is left.
pub open spec fn tree_root_of(s: Seq<Seq<u8>>, arity: int) -> Seq<u8>
    decreases s.len(),
    when arity >= 2 && s.len() >= 1
    via tree_root_of_decreases
{
    if s.len() == 1 {
        s[0]
    } else {
        tree_root_of(level_up(s, arity), arity)
    }
}

#[via_fn]
proof fn tree_root_of_decreases(s: Seq<Seq<u8>>, arity: int) {
    if s.len() != 1 {
        assert((s.len() as int) / arity < s.len() && (s.len() as int) / arity >= 0)
            by (nonlinear_arith)
            requires
                arity >= 2,
                s.len() >= 2,
        ;
    }
}

} // verus!
