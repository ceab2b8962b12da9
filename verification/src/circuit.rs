//! The arithmetization of layer proofs.
//!
//! Synthesis runs against an explicit constraint-system model: a sequence
//! of public-input values in allocation order and a ledger of constraints,
//! each recorded with its truth value. Constraints that only wire internal
//! witnesses (hash gadgets, bit decompositions, input packing) are always
//! satisfiable and are recorded as holding; every check that can fail —
//! a root equality, a range check, a parent-index binding — is recorded
//! with its actual truth. Satisfiability of the synthesized system is
//! proved equal to native layer-proof verification over the same data.
//!
//! Every layer's inclusion leaf is constrained equal to its derived
//! label and every parent opening is bound to its derived index and
//! authenticated — a system that skipped either check would stay
//! complete but accept label chains the replica cannot reproduce.
//!
//! The cost model is fixed and documented per gadget: packing a public
//! input is one constraint; a label gadget defines its output in one
//! constraint; an inclusion gadget spends one constraint per tree level
//! plus one root equality; every node proof carries a parent block — one
//! count constraint (on the first layer: that no parent openings are
//! carried) and, per parent, its inclusion plus one index binding; the
//! identity decomposition spends 257 constraints; the commitment fold
//! spends one constraint per chunk plus one equality.
use vstd::prelude::*;
use crate::{Config, PublicParams, PublicInputs};
use crate::challenges::{challenge_of, parent_of};
use crate::challenges::{derive_parent, derive_challenge};
use crate::commitment::{comm_r_of, pad_count, hash_md};
use crate::hashing::{Domain, views, domain_of_u64, domain_from_u64};
use crate::labels::{
    first_label_of, expander_label_of, butterfly_label_of, derive_first_layer_label,
    derive_expander_layer_label, derive_butterfly_layer_label,
};
use crate::merkle::{PathElement, fold_path, verify_inclusion};
use crate::proofs::{
    NodeProof, LayerProof, ParentOpening, node_ok, parents_ok, parent_values, path_in_bounds,
    layer_proof_ok, expander_proof_ok, butterfly_proof_ok, collect_parent_values,
};

verus! {

/// Why synthesis failed.
#[derive(Clone, Copy, Debug, PartialEq, Eq, Structural)]
pub enum SynthesisError {
    /// A witness the constraint system needs was not supplied.
    AssignmentMissing,
}

/// Every recorded constraint holds.
pub open spec fn all_true(s: Seq<bool>) -> bool {
    forall|i: int| 0 <= i < s.len() ==> s[i]
}

/// Recording one more constraint conjoins its truth.
pub proof fn lemma_all_true_push(s: Seq<bool>, b: bool)
    ensures
        all_true(s.push(b)) == (all_true(s) && b),
{
    assert(s.push(b)[s.len() as int] == b);
    if all_true(s) && b {
        assert forall|i: int| 0 <= i < s.push(b).len() implies s.push(b)[i] by {
            if i < s.len() {
                assert(s.push(b)[i] == s[i]);
            }
        }
    }
    if all_true(s.push(b)) {
        assert forall|i: int| 0 <= i < s.len() implies s[i] by {
            assert(s.push(b)[i] == s[i]);
        }
    }
}

/// The sequential constraint-system model: public-input values in
/// allocation order (the constant input left implicit) and the truth of
/// each recorded constraint.
pub struct ConstraintSystem {
    /// Public-input values, in allocation order.
    pub public_inputs: Vec<Domain>,
    /// One entry per constraint: whether it is satisfied.
    pub constraints: Vec<bool>,
}

impl ConstraintSystem {
    /// The public-input values in order.
    pub open spec fn input_views(self) -> Seq<Seq<u8>> {
        views(self.public_inputs@)
    }

    /// The number of public inputs, the constant one included.
    pub open spec fn spec_num_inputs(self) -> int {
        1 + self.public_inputs@.len() as int
    }

    /// The number of recorded constraints.
    pub open spec fn spec_num_constraints(self) -> int {
        self.constraints@.len() as int
    }

    /// Whether every recorded constraint holds.
    pub open spec fn spec_satisfied(self) -> bool {
        all_true(self.constraints@)
    }

    /// A fresh, empty, satisfied system.
    pub fn new() -> (r: ConstraintSystem)
        ensures
            r.input_views() == Seq::<Seq<u8>>::empty(),
            r.spec_num_constraints() == 0,
            r.spec_satisfied(),
    {
        let r = ConstraintSystem { public_inputs: Vec::new(), constraints: Vec::new() };
        proof {
            assert(r.input_views() =~= Seq::<Seq<u8>>::empty());
        }
        r
    }

    /// The number of public inputs, the constant one included.
    pub fn num_inputs(&self) -> (r: usize)
        requires
            self.public_inputs@.len() < usize::MAX,
        ensures
            r == self.spec_num_inputs(),
    {
        1 + self.public_inputs.len()
    }

    /// The number of recorded constraints.
    pub fn num_constraints(&self) -> (r: usize)
        ensures
            r == self.spec_num_constraints(),
    {
        self.constraints.len()
    }

    /// Whether every recorded constraint holds.
    pub fn is_satisfied(&self) -> (r: bool)
        ensures
            r == self.spec_satisfied(),
    {
        let n = self.constraints.len();
        let mut i: usize = 0;
        while i < n
            invariant
                i <= n,
                n == self.constraints@.len(),
                forall|j: int| 0 <= j < i ==> self.constraints@[j],
            decreases n - i,
        {
            if !self.constraints[i] {
                return false;
            }
            i += 1;
        }
        true
    }

    /// Allocate a value as a public input; packing it costs one always-
    /// satisfiable constraint.
    pub fn alloc_input(&mut self, v: &Domain)
        ensures
            final(self).input_views() == old(self).input_views().push(v@),
            final(self).constraints@ == old(self).constraints@.push(true),
            final(self).spec_satisfied() == old(self).spec_satisfied(),
    {
        self.public_inputs.push(v.dup());
        self.constraints.push(true);
        proof {
            assert(self.input_views() =~= old(self).input_views().push(v@));
            lemma_all_true_push(old(self).constraints@, true);
        }
    }

    /// Record one checking constraint with its truth.
    pub fn enforce(&mut self, sat: bool)
        ensures
            final(self).input_views() == old(self).input_views(),
            final(self).constraints@ == old(self).constraints@.push(sat),
            final(self).spec_satisfied() == (old(self).spec_satisfied() && sat),
    {
        self.constraints.push(sat);
        proof {
            lemma_all_true_push(old(self).constraints@, sat);
        }
    }

    /// Record `n` always-satisfiable wiring constraints.
    pub fn charge(&mut self, n: usize)
        ensures
            final(self).input_views() == old(self).input_views(),
            final(self).constraints@.len() == old(self).constraints@.len() + n,
            final(self).spec_satisfied() == old(self).spec_satisfied(),
    {
        let mut i: usize = 0;
        while i < n
            invariant
                i <= n,
                self.public_inputs@ == old(self).public_inputs@,
                self.constraints@.len() == old(self).constraints@.len() + i,
                self.spec_satisfied() == old(self).spec_satisfied(),
            decreases n - i,
        {
            proof {
                lemma_all_true_push(self.constraints@, true);
            }
            self.constraints.push(true);
            i += 1;
        }
    }

    /// Record an equality constraint between two allocated values.
    pub fn enforce_equal(&mut self, a: &Domain, b: &Domain)
        ensures
            final(self).input_views() == old(self).input_views(),
            final(self).constraints@ == old(self).constraints@.push(a@ == b@),
            final(self).spec_satisfied() == (old(self).spec_satisfied() && (a@ == b@)),
    {
        let ok = a.eq_value(b);
        self.enforce(ok);
    }
}

/// Synthesize a Merkle-inclusion gadget: one wiring constraint per level,
/// one root equality.
fn enforce_inclusion_gadget(
    cs: &mut ConstraintSystem,
    path: &Vec<PathElement>,
    root: &Domain,
    leaf: &Domain,
)
    requires
        path_in_bounds(path@),
    ensures
        final(cs).input_views() == old(cs).input_views(),
        final(cs).constraints@.len() == old(cs).constraints@.len() + path@.len() + 1,
        final(cs).spec_satisfied() == (old(cs).spec_satisfied() && fold_path(leaf@, path@)
            == root@),
{
    cs.charge(path.len());
    let ok = verify_inclusion(leaf, path, root);
    cs.enforce(ok);
}

/// The constraints one node proof costs, parents aside: a range check,
/// both inclusions.
pub open spec fn node_cost(np: NodeProof) -> int {
    3 + np.data_path@.len() as int + np.layer_path@.len() as int
}

/// The constraints the parent openings cost: per parent, its inclusion
/// and one index binding.
pub open spec fn parents_cost(ps: Seq<ParentOpening>) -> int
    decreases ps.len(),
{
    if ps.len() == 0 {
        0int
    } else {
        ps[0].path@.len() + 2 + parents_cost(ps.skip(1))
    }
}

/// One more parent opening adds its own cost.
pub proof fn lemma_parents_cost_push(ps: Seq<ParentOpening>, p: ParentOpening)
    ensures
        parents_cost(ps.push(p)) == parents_cost(ps) + p.path@.len() + 2,
    decreases ps.len(),
{
    if ps.len() == 0 {
        assert(ps.push(p)[0] == p);
        assert(ps.push(p).skip(1) =~= Seq::<ParentOpening>::empty());
        assert(parents_cost(Seq::<ParentOpening>::empty()) == 0);
        assert(parents_cost(ps) == 0);
        assert(parents_cost(ps.push(p)) == p.path@.len() + 2 + parents_cost(
            Seq::<ParentOpening>::empty(),
        ));
    } else {
        assert(ps.push(p)[0] == ps[0]);
        assert(ps.push(p).skip(1) =~= ps.skip(1).push(p));
        lemma_parents_cost_push(ps.skip(1), p);
        assert(parents_cost(ps.push(p)) == ps[0].path@.len() + 2 + parents_cost(
            ps.skip(1).push(p),
        ));
        assert(parents_cost(ps) == ps[0].path@.len() + 2 + parents_cost(ps.skip(1)));
    }
}

/// A node proof's paths, and its parents' paths, are foldable.
pub open spec fn np_paths_ok(np: NodeProof) -> bool {
    &&& path_in_bounds(np.data_path@)
    &&& path_in_bounds(np.layer_path@)
    &&& forall|j: int|
        0 <= j < np.parents@.len() ==> path_in_bounds((#[trigger] np.parents@[j]).path@)
}

/// Synthesize the parent block of one node proof: a count constraint,
/// then per parent its inclusion against the previous layer's root and
/// the binding of its index to the derived one.
fn enforce_parents(
    cs: &mut ConstraintSystem,
    np: &NodeProof,
    cfg: &Config,
    layer: u64,
    degree: u64,
    prev_root: &Domain,
)
    requires
        cfg.wf(),
        np.challenge < cfg.spec_num_nodes_sector(),
        np_paths_ok(*np),
    ensures
        final(cs).input_views() == old(cs).input_views(),
        final(cs).constraints@.len() == old(cs).constraints@.len() + 1 + parents_cost(np.parents@),
        final(cs).spec_satisfied() == (old(cs).spec_satisfied() && parents_ok(
            *np,
            *cfg,
            layer,
            degree,
            prev_root@,
        )),
{
    let count_ok = np.parents.len() as u64 == degree;
    cs.enforce(count_ok);
    let n = np.parents.len();
    let mut j: usize = 0;
    proof {
        assert(parents_cost(np.parents@.take(0)) == 0) by {
            assert(np.parents@.take(0) =~= Seq::<ParentOpening>::empty());
        }
    }
    while j < n
        invariant
            j <= n,
            n == np.parents@.len(),
            cfg.wf(),
            np.challenge < cfg.spec_num_nodes_sector(),
            np_paths_ok(*np),
            cs.input_views() == old(cs).input_views(),
            cs.constraints@.len() == old(cs).constraints@.len() + 1 + parents_cost(
                np.parents@.take(j as int),
            ),
            cs.spec_satisfied() == (old(cs).spec_satisfied() && count_ok && (forall|m: int|
                0 <= m < j ==> {
                    let p = #[trigger] np.parents@[m];
                    &&& p.index == parent_of(*cfg, layer, np.challenge, m as u64)
                    &&& fold_path(p.value@, p.path@) == prev_root@
                })),
        decreases n - j,
    {
        let p = &np.parents[j];
        let expected = derive_parent(cfg, layer, np.challenge, j as u64);
        enforce_inclusion_gadget(cs, &p.path, prev_root, &p.value);
        cs.enforce(p.index == expected);
        proof {
            assert(np.parents@.take(j + 1) =~= np.parents@.take(j as int).push(
                np.parents@[j as int],
            ));
            lemma_parents_cost_push(np.parents@.take(j as int), np.parents@[j as int]);
        }
        j += 1;
    }
    proof {
        assert(np.parents@.take(n as int) =~= np.parents@);
        if count_ok && (forall|m: int|
            0 <= m < n ==> {
                let p = #[trigger] np.parents@[m];
                &&& p.index == parent_of(*cfg, layer, np.challenge, m as u64)
                &&& fold_path(p.value@, p.path@) == prev_root@
            }) {
            assert(parents_ok(*np, *cfg, layer, degree, prev_root@));
        }
        if !(count_ok && (forall|m: int|
            0 <= m < n ==> {
                let p = #[trigger] np.parents@[m];
                &&& p.index == parent_of(*cfg, layer, np.challenge, m as u64)
                &&& fold_path(p.value@, p.path@) == prev_root@
            })) {
            assert(!parents_ok(*np, *cfg, layer, degree, prev_root@));
        }
    }
}

/// A node proof fit for synthesis: its challenge is a node of the sector
/// and all its openings are foldable.
pub open spec fn np_wf(cfg: Config, np: NodeProof) -> bool {
    &&& np.challenge < cfg.spec_num_nodes_sector()
    &&& np_paths_ok(np)
}

/// A layer proof fit for synthesis: the layer counts match the
/// configuration and every node proof is fit.
pub open spec fn lp_wf(cfg: Config, lp: LayerProof) -> bool {
    &&& lp.expander_layer_proofs@.len() == cfg.num_expander_layers
    &&& lp.butterfly_layer_proofs@.len() == cfg.num_butterfly_layers
    &&& np_wf(cfg, lp.first_layer_proof)
    &&& forall|i: int|
        0 <= i < lp.expander_layer_proofs@.len() ==> np_wf(
            cfg,
            #[trigger] lp.expander_layer_proofs@[i],
        )
    &&& forall|i: int|
        0 <= i < lp.butterfly_layer_proofs@.len() ==> np_wf(
            cfg,
            #[trigger] lp.butterfly_layer_proofs@[i],
        )
    &&& np_wf(cfg, lp.last_layer_proof)
}

/// The packed challenge values of a run of node proofs.
pub open spec fn challenge_doms(nps: Seq<NodeProof>) -> Seq<Seq<u8>> {
    nps.map_values(|np: NodeProof| domain_of_u64(np.challenge))
}

/// The public inputs one layer proof allocates: one packed challenge per
/// layer, in layer order.
pub open spec fn lp_input_views(lp: LayerProof) -> Seq<Seq<u8>> {
    seq![domain_of_u64(lp.first_layer_proof.challenge)] + challenge_doms(
        lp.expander_layer_proofs@,
    ) + challenge_doms(lp.butterfly_layer_proofs@) + seq![
        domain_of_u64(lp.last_layer_proof.challenge),
    ]
}

/// The constraints one node-proof block costs: challenge packing, label
/// gadget, the node proof itself, and its parent block — a count
/// constraint plus the per-parent checks on parent-bearing layers, a
/// single no-parents constraint on the first layer.
pub open spec fn np_block_cost(np: NodeProof, with_parents: bool) -> int {
    2 + node_cost(np) + if with_parents {
        1 + parents_cost(np.parents@)
    } else {
        1int
    }
}

/// The constraints a run of parent-bearing node-proof blocks costs.
pub open spec fn nps_block_cost(nps: Seq<NodeProof>) -> int
    decreases nps.len(),
{
    if nps.len() == 0 {
        0int
    } else {
        np_block_cost(nps[0], true) + nps_block_cost(nps.skip(1))
    }
}

/// One more block adds its own cost.
pub proof fn lemma_nps_block_cost_push(nps: Seq<NodeProof>, np: NodeProof)
    ensures
        nps_block_cost(nps.push(np)) == nps_block_cost(nps) + np_block_cost(np, true),
    decreases nps.len(),
{
    if nps.len() == 0 {
        assert(nps.push(np)[0] == np);
        assert(nps.push(np).skip(1) =~= Seq::<NodeProof>::empty());
        assert(nps_block_cost(Seq::<NodeProof>::empty()) == 0);
        assert(nps_block_cost(nps) == 0);
        assert(nps_block_cost(nps.push(np)) == np_block_cost(np, true) + nps_block_cost(
            Seq::<NodeProof>::empty(),
        ));
    } else {
        assert(nps.push(np)[0] == nps[0]);
        assert(nps.push(np).skip(1) =~= nps.skip(1).push(np));
        lemma_nps_block_cost_push(nps.skip(1), np);
        assert(nps_block_cost(nps.push(np)) == np_block_cost(nps[0], true) + nps_block_cost(
            nps.skip(1).push(np),
        ));
        assert(nps_block_cost(nps) == np_block_cost(nps[0], true) + nps_block_cost(nps.skip(1)));
    }
}

/// The constraints one layer proof costs.
pub open spec fn lp_cost(lp: LayerProof) -> int {
    np_block_cost(lp.first_layer_proof, false) + nps_block_cost(lp.expander_layer_proofs@)
        + nps_block_cost(lp.butterfly_layer_proofs@) + np_block_cost(lp.last_layer_proof, true)
}

impl NodeProof {
    /// Synthesize one node proof: a range check on the challenge, the
    /// data inclusion against `comm_d`, the inclusion of the derived
    /// leaf against the layer root, and the parent block — against the
    /// previous layer's root when one is given (every parent opening is
    /// authenticated and bound to its derived index), or a constraint
    /// that no parent openings are carried when none is (the first
    /// layer). Consumes the proof.
    pub fn synthesize(
        self,
        cs: &mut ConstraintSystem,
        cfg: &Config,
        comm_d: &Domain,
        layer_root: &Domain,
        layer_leaf: &Domain,
        layer: u64,
        degree: u64,
        prev_root: Option<&Domain>,
    )
        requires
            cfg.wf(),
            path_in_bounds(self.data_path@),
            path_in_bounds(self.layer_path@),
            prev_root is Some ==> self.challenge < cfg.spec_num_nodes_sector(),
            prev_root is Some ==> forall|j: int|
                0 <= j < self.parents@.len() ==> path_in_bounds(
                    (#[trigger] self.parents@[j]).path@,
                ),
        ensures
            final(cs).input_views() == old(cs).input_views(),
            final(cs).constraints@.len() == old(cs).constraints@.len() + node_cost(self) + (
            if prev_root is Some {
                1 + parents_cost(self.parents@)
            } else {
                1int
            }),
            final(cs).spec_satisfied() == (old(cs).spec_satisfied() && node_ok(
                self,
                comm_d@,
                layer_root@,
                layer_leaf@,
                cfg.spec_num_nodes_sector(),
            ) && (if prev_root is Some {
                parents_ok(self, *cfg, layer, degree, prev_root->0@)
            } else {
                self.parents@.len() == 0
            })),
    {
        let num_nodes = cfg.num_nodes_sector();
        cs.enforce(self.challenge < num_nodes);
        enforce_inclusion_gadget(cs, &self.data_path, comm_d, &self.data_leaf);
        enforce_inclusion_gadget(cs, &self.layer_path, layer_root, layer_leaf);
        match prev_root {
            Some(pr) => {
                enforce_parents(cs, &self, cfg, layer, degree, pr);
            },
            None => {
                cs.enforce(self.parents.len() == 0);
            },
        }
    }
}

/// Synthesize one butterfly-class block (a butterfly layer or the last
/// layer): challenge input, label gadget, parent block, node proof.
fn synthesize_butterfly_block(
    cs: &mut ConstraintSystem,
    np: NodeProof,
    cfg: &Config,
    comm_d: &Domain,
    comm_layers: &Vec<Domain>,
    replica_id: &Domain,
    layer: u64,
)
    requires
        cfg.wf(),
        comm_layers@.len() == cfg.spec_num_layers(),
        np_wf(*cfg, np),
        2 <= layer <= cfg.spec_num_layers(),
    ensures
        final(cs).input_views() == old(cs).input_views().push(domain_of_u64(np.challenge)),
        final(cs).constraints@.len() == old(cs).constraints@.len() + np_block_cost(np, true),
        final(cs).spec_satisfied() == (old(cs).spec_satisfied() && butterfly_proof_ok(
            *cfg,
            replica_id@,
            comm_d@,
            views(comm_layers@),
            np,
            layer,
        )),
{
    let ch_dom = domain_from_u64(np.challenge);
    cs.alloc_input(&ch_dom);
    let values = collect_parent_values(&np);
    let leaf = derive_butterfly_layer_label(replica_id, layer, np.challenge, &values);
    cs.charge(1);
    let n_layers = comm_layers.len();
    assert(n_layers == cfg.spec_num_layers());
    let layer_idx = (layer - 1) as usize;
    let prev_idx = (layer - 2) as usize;
    proof {
        assert(layer_idx as int == layer - 1);
        assert(prev_idx as int == layer - 2);
        assert(views(comm_layers@)[layer_idx as int] == comm_layers@[layer_idx as int]@);
        assert(views(comm_layers@)[prev_idx as int] == comm_layers@[prev_idx as int]@);
    }
    np.synthesize(
        cs,
        cfg,
        comm_d,
        &comm_layers[layer_idx],
        &leaf,
        layer,
        cfg.degree_butterfly,
        Some(&comm_layers[prev_idx]),
    );
}

impl LayerProof {
    /// Synthesize one layer proof: for every layer in order, allocate the
    /// packed challenge as a public input, derive the layer's label in
    /// the label gadget, and enforce the node proof — parents included on
    /// every parent-bearing layer and the derived leaf enforced on every
    /// layer. Consumes the proof.
    pub fn synthesize(
        self,
        cs: &mut ConstraintSystem,
        cfg: &Config,
        comm_d: &Domain,
        comm_layers: &Vec<Domain>,
        replica_id: &Domain,
    )
        requires
            cfg.wf(),
            comm_layers@.len() == cfg.spec_num_layers(),
            lp_wf(*cfg, self),
        ensures
            final(cs).input_views() == old(cs).input_views() + lp_input_views(self),
            final(cs).constraints@.len() == old(cs).constraints@.len() + lp_cost(self),
            final(cs).spec_satisfied() == (old(cs).spec_satisfied() && layer_proof_ok(
                *cfg,
                replica_id@,
                comm_d@,
                views(comm_layers@),
                self,
            )),
    {
        let ghost lp = self;
        let ghost base = old(cs).input_views();
        let ghost base_len = old(cs).constraints@.len() as int;
        let ghost base_sat = old(cs).spec_satisfied();
        let num_nodes = cfg.num_nodes_sector();
        let LayerProof {
            first_layer_proof,
            expander_layer_proofs,
            butterfly_layer_proofs,
            last_layer_proof,
        } = self;
        // first layer
        let ch_dom = domain_from_u64(first_layer_proof.challenge);
        cs.alloc_input(&ch_dom);
        let first_leaf = derive_first_layer_label(replica_id, first_layer_proof.challenge);
        cs.charge(1);
        proof {
            assert(views(comm_layers@)[0] == comm_layers@[0]@);
        }
        let ghost first_ok = node_ok(
            lp.first_layer_proof,
            comm_d@,
            views(comm_layers@)[0],
            first_label_of(replica_id@, lp.first_layer_proof.challenge),
            cfg.spec_num_nodes_sector(),
        ) && lp.first_layer_proof.parents@.len() == 0;
        first_layer_proof.synthesize(cs, cfg, comm_d, &comm_layers[0], &first_leaf, 1, 0, None);
        // expander layers
        let ghost orig_exp = lp.expander_layer_proofs@;
        let mut expander_layer_proofs = expander_layer_proofs;
        let ne = expander_layer_proofs.len();
        let mut i: usize = 0;
        proof {
            assert(orig_exp.skip(0) =~= orig_exp);
            assert(challenge_doms(orig_exp.take(0)) =~= Seq::<Seq<u8>>::empty());
            assert(cs.input_views() =~= base + seq![
                domain_of_u64(lp.first_layer_proof.challenge),
            ] + challenge_doms(orig_exp.take(0)));
            assert(nps_block_cost(orig_exp.take(0)) == 0) by {
                assert(orig_exp.take(0) =~= Seq::<NodeProof>::empty());
            }
        }
        while i < ne
            invariant
                i <= ne,
                ne == orig_exp.len(),
                ne == cfg.num_expander_layers,
                expander_layer_proofs@ == orig_exp.skip(i as int),
                cfg.wf(),
                comm_layers@.len() == cfg.spec_num_layers(),
                num_nodes == cfg.spec_num_nodes_sector(),
                forall|m: int| 0 <= m < ne ==> np_wf(*cfg, #[trigger] orig_exp[m]),
                cs.input_views() == base + seq![
                    domain_of_u64(lp.first_layer_proof.challenge),
                ] + challenge_doms(orig_exp.take(i as int)),
                cs.constraints@.len() == base_len + np_block_cost(lp.first_layer_proof, false)
                    + nps_block_cost(orig_exp.take(i as int)),
                cs.spec_satisfied() == (base_sat && first_ok && (forall|m: int|
                    0 <= m < i ==> expander_proof_ok(
                        *cfg,
                        replica_id@,
                        comm_d@,
                        views(comm_layers@),
                        #[trigger] orig_exp[m],
                        m,
                    ))),
            decreases ne - i,
        {
            let np = expander_layer_proofs.remove(0);
            proof {
                assert(orig_exp.skip(i as int)[0] == orig_exp[i as int]);
                assert(orig_exp.skip(i as int).remove(0) =~= orig_exp.skip(i + 1));
            }
            let layer = (i as u64) + 2;
            let ch_dom = domain_from_u64(np.challenge);
            cs.alloc_input(&ch_dom);
            let values = collect_parent_values(&np);
            let leaf = derive_expander_layer_label(replica_id, layer, np.challenge, &values);
            cs.charge(1);
            proof {
                assert(i + 1 < comm_layers@.len());
                assert(views(comm_layers@)[i as int] == comm_layers@[i as int]@);
                assert(views(comm_layers@)[i + 1] == comm_layers@[i + 1]@);
            }
            np.synthesize(
                cs,
                cfg,
                comm_d,
                &comm_layers[i + 1],
                &leaf,
                layer,
                cfg.degree_expander,
                Some(&comm_layers[i]),
            );
            proof {
                assert(orig_exp.take(i + 1) =~= orig_exp.take(i as int).push(orig_exp[i as int]));
                lemma_nps_block_cost_push(orig_exp.take(i as int), orig_exp[i as int]);
                assert(challenge_doms(orig_exp.take(i + 1)) =~= challenge_doms(
                    orig_exp.take(i as int),
                ).push(domain_of_u64(np.challenge)));
                assert((base + seq![domain_of_u64(lp.first_layer_proof.challenge)]
                    + challenge_doms(orig_exp.take(i as int))).push(domain_of_u64(np.challenge))
                    =~= base + seq![domain_of_u64(lp.first_layer_proof.challenge)]
                    + challenge_doms(orig_exp.take(i + 1)));
                assert(expander_proof_ok(
                    *cfg,
                    replica_id@,
                    comm_d@,
                    views(comm_layers@),
                    orig_exp[i as int],
                    i as int,
                ) == (parents_ok(
                    np,
                    *cfg,
                    layer,
                    cfg.degree_expander,
                    views(comm_layers@)[layer - 2],
                ) && node_ok(
                    np,
                    comm_d@,
                    views(comm_layers@)[layer - 1],
                    expander_label_of(replica_id@, layer, np.challenge, parent_values(np)),
                    cfg.spec_num_nodes_sector(),
                )));
            }
            i += 1;
        }
        proof {
            assert(orig_exp.take(ne as int) =~= orig_exp);
        }
        // butterfly layers
        let ghost orig_but = lp.butterfly_layer_proofs@;
        let mut butterfly_layer_proofs = butterfly_layer_proofs;
        let nb = butterfly_layer_proofs.len();
        let mut i: usize = 0;
        proof {
            assert(orig_but.skip(0) =~= orig_but);
            assert(challenge_doms(orig_but.take(0)) =~= Seq::<Seq<u8>>::empty());
            assert(cs.input_views() =~= base + seq![
                domain_of_u64(lp.first_layer_proof.challenge),
            ] + challenge_doms(orig_exp) + challenge_doms(orig_but.take(0)));
            assert(nps_block_cost(orig_but.take(0)) == 0) by {
                assert(orig_but.take(0) =~= Seq::<NodeProof>::empty());
            }
        }
        while i < nb
            invariant
                i <= nb,
                nb == orig_but.len(),
                nb == cfg.num_butterfly_layers,
                ne == cfg.num_expander_layers,
                butterfly_layer_proofs@ == orig_but.skip(i as int),
                cfg.wf(),
                comm_layers@.len() == cfg.spec_num_layers(),
                num_nodes == cfg.spec_num_nodes_sector(),
                forall|m: int| 0 <= m < nb ==> np_wf(*cfg, #[trigger] orig_but[m]),
                cs.input_views() == base + seq![
                    domain_of_u64(lp.first_layer_proof.challenge),
                ] + challenge_doms(orig_exp) + challenge_doms(orig_but.take(i as int)),
                cs.constraints@.len() == base_len + np_block_cost(lp.first_layer_proof, false)
                    + nps_block_cost(orig_exp) + nps_block_cost(orig_but.take(i as int)),
                cs.spec_satisfied() == (base_sat && first_ok && (forall|m: int|
                    0 <= m < ne ==> expander_proof_ok(
                        *cfg,
                        replica_id@,
                        comm_d@,
                        views(comm_layers@),
                        #[trigger] orig_exp[m],
                        m,
                    )) && (forall|m: int|
                    0 <= m < i ==> butterfly_proof_ok(
                        *cfg,
                        replica_id@,
                        comm_d@,
                        views(comm_layers@),
                        #[trigger] orig_but[m],
                        (ne + 2 + m) as u64,
                    ))),
            decreases nb - i,
        {
            let np = butterfly_layer_proofs.remove(0);
            proof {
                assert(orig_but.skip(i as int)[0] == orig_but[i as int]);
                assert(orig_but.skip(i as int).remove(0) =~= orig_but.skip(i + 1));
            }
            let layer = (ne as u64) + 2 + (i as u64);
            let ghost cs_before = *cs;
            synthesize_butterfly_block(cs, np, cfg, comm_d, comm_layers, replica_id, layer);
            proof {
                assert(orig_but.take(i + 1) =~= orig_but.take(i as int).push(orig_but[i as int]));
                lemma_nps_block_cost_push(orig_but.take(i as int), orig_but[i as int]);
                assert(challenge_doms(orig_but.take(i + 1)) =~= challenge_doms(
                    orig_but.take(i as int),
                ).push(domain_of_u64(orig_but[i as int].challenge)));
                assert((base + seq![domain_of_u64(lp.first_layer_proof.challenge)]
                    + challenge_doms(orig_exp) + challenge_doms(orig_but.take(i as int))).push(
                    domain_of_u64(orig_but[i as int].challenge),
                ) =~= base + seq![domain_of_u64(lp.first_layer_proof.challenge)] + challenge_doms(
                    orig_exp,
                ) + challenge_doms(orig_but.take(i + 1)));
                assert((ne + 2 + i) as u64 == layer);
            }
            i += 1;
        }
        proof {
            assert(orig_but.take(nb as int) =~= orig_but);
        }
        // last layer
        let last_layer = cfg.num_layers();
        synthesize_butterfly_block(
            cs,
            last_layer_proof,
            cfg,
            comm_d,
            comm_layers,
            replica_id,
            last_layer,
        );
        proof {
            assert(cs.input_views() =~= base + lp_input_views(lp));
            assert(layer_proof_ok(
                *cfg,
                replica_id@,
                comm_d@,
                views(comm_layers@),
                lp,
            ) == (first_ok && (forall|m: int|
                0 <= m < ne ==> expander_proof_ok(
                    *cfg,
                    replica_id@,
                    comm_d@,
                    views(comm_layers@),
                    #[trigger] orig_exp[m],
                    m,
                )) && (forall|m: int|
                0 <= m < nb ==> butterfly_proof_ok(
                    *cfg,
                    replica_id@,
                    comm_d@,
                    views(comm_layers@),
                    #[trigger] orig_but[m],
                    (ne + 2 + m) as u64,
                )) && butterfly_proof_ok(
                *cfg,
                replica_id@,
                comm_d@,
                views(comm_layers@),
                lp.last_layer_proof,
                cfg.spec_num_layers() as u64,
            )));
        }
    }
}


/// A layer proof that passes verification is fit for synthesis: the
/// verification predicate pins the layer counts, keeps every challenge
/// inside the sector, and authenticates only foldable openings, so a
/// verified caller can chain proving into synthesis without any further
/// premise.
pub proof fn lemma_layer_proof_ok_implies_wf(
    cfg: Config,
    rid: Seq<u8>,
    comm_d: Seq<u8>,
    comm_layers: Seq<Seq<u8>>,
    lp: LayerProof,
)
    requires
        layer_proof_ok(cfg, rid, comm_d, comm_layers, lp),
    ensures
        lp_wf(cfg, lp),
{
    let e = cfg.num_expander_layers as int;
    let b = cfg.num_butterfly_layers as int;
    assert(np_wf(cfg, lp.first_layer_proof));
    assert forall|i: int| 0 <= i < e implies np_wf(cfg, #[trigger] lp.expander_layer_proofs@[i])
        by {
        assert(expander_proof_ok(cfg, rid, comm_d, comm_layers, lp.expander_layer_proofs@[i], i));
    }
    assert forall|i: int| 0 <= i < b implies np_wf(cfg, #[trigger] lp.butterfly_layer_proofs@[i])
        by {
        assert(butterfly_proof_ok(
            cfg,
            rid,
            comm_d,
            comm_layers,
            lp.butterfly_layer_proofs@[i],
            (e + 2 + i) as u64,
        ));
    }
    assert(np_wf(cfg, lp.last_layer_proof));
}

/// The public inputs a run of layer proofs allocates.
pub open spec fn lps_inputs(lps: Seq<LayerProof>) -> Seq<Seq<u8>>
    decreases lps.len(),
{
    if lps.len() == 0 {
        Seq::empty()
    } else {
        lp_input_views(lps[0]) + lps_inputs(lps.skip(1))
    }
}

/// One more layer proof appends its own inputs.
pub proof fn lemma_lps_inputs_push(lps: Seq<LayerProof>, lp: LayerProof)
    ensures
        lps_inputs(lps.push(lp)) == lps_inputs(lps) + lp_input_views(lp),
    decreases lps.len(),
{
    if lps.len() == 0 {
        assert(lps.push(lp)[0] == lp);
        assert(lps.push(lp).skip(1) =~= Seq::<LayerProof>::empty());
        assert(lps_inputs(Seq::<LayerProof>::empty()) == Seq::<Seq<u8>>::empty());
        assert(lps_inputs(lps) == Seq::<Seq<u8>>::empty());
        assert(lps_inputs(lps.push(lp)) == lp_input_views(lp) + lps_inputs(
            Seq::<LayerProof>::empty(),
        ));
        assert(lp_input_views(lp) + Seq::<Seq<u8>>::empty() =~= Seq::<Seq<u8>>::empty()
            + lp_input_views(lp));
    } else {
        assert(lps.push(lp)[0] == lps[0]);
        assert(lps.push(lp).skip(1) =~= lps.skip(1).push(lp));
        lemma_lps_inputs_push(lps.skip(1), lp);
        assert(lps_inputs(lps.push(lp)) == lp_input_views(lps[0]) + (lps_inputs(lps.skip(1))
            + lp_input_views(lp)));
        assert(lps_inputs(lps) == lp_input_views(lps[0]) + lps_inputs(lps.skip(1)));
        assert(lp_input_views(lps[0]) + (lps_inputs(lps.skip(1)) + lp_input_views(lp)) =~= (
        lp_input_views(lps[0]) + lps_inputs(lps.skip(1))) + lp_input_views(lp));
    }
}

/// The constraints a run of layer proofs costs.
pub open spec fn lps_cost(lps: Seq<LayerProof>) -> int
    decreases lps.len(),
{
    if lps.len() == 0 {
        0int
    } else {
        lp_cost(lps[0]) + lps_cost(lps.skip(1))
    }
}

/// One more layer proof adds its own cost.
pub proof fn lemma_lps_cost_push(lps: Seq<LayerProof>, lp: LayerProof)
    ensures
        lps_cost(lps.push(lp)) == lps_cost(lps) + lp_cost(lp),
    decreases lps.len(),
{
    if lps.len() == 0 {
        assert(lps.push(lp)[0] == lp);
        assert(lps.push(lp).skip(1) =~= Seq::<LayerProof>::empty());
        assert(lps_cost(Seq::<LayerProof>::empty()) == 0);
        assert(lps_cost(lps) == 0);
        assert(lps_cost(lps.push(lp)) == lp_cost(lp) + lps_cost(Seq::<LayerProof>::empty()));
    } else {
        assert(lps.push(lp)[0] == lps[0]);
        assert(lps.push(lp).skip(1) =~= lps.skip(1).push(lp));
        lemma_lps_cost_push(lps.skip(1), lp);
        assert(lps_cost(lps.push(lp)) == lp_cost(lps[0]) + lps_cost(lps.skip(1).push(lp)));
        assert(lps_cost(lps) == lp_cost(lps[0]) + lps_cost(lps.skip(1)));
    }
}

/// The layer-root values behind the optional witnesses.
pub open spec fn comm_layer_views(cls: Seq<Option<Domain>>) -> Seq<Seq<u8>> {
    cls.map_values(|o: Option<Domain>| o->0@)
}

/// How many chunks the commitment fold consumes.
pub open spec fn md_chunks(n: int) -> int {
    (n + pad_count(n)) / 8
}

/// The circuit for one partition's layer proofs.
///
/// Carries optional witnesses: a circuit built without private inputs
/// fails synthesis with a missing-assignment error instead of producing
/// an unsound system.
pub struct NseCircuit {
    /// The public parameters synthesis is shaped by.
    pub public_params: PublicParams,
    /// The replica identity, if assigned.
    pub replica_id: Option<Domain>,
    /// The replica commitment, if assigned.
    pub comm_r: Option<Domain>,
    /// The data commitment, if assigned.
    pub comm_d: Option<Domain>,
    /// The layer proofs, one per sampled challenge counter.
    pub layer_proofs: Vec<LayerProof>,
    /// The per-layer roots, private witnesses, if assigned.
    pub comm_layers: Vec<Option<Domain>>,
}

impl NseCircuit {
    /// Every witness synthesis needs is present.
    pub open spec fn assigned(self) -> bool {
        &&& self.replica_id is Some
        &&& self.comm_d is Some
        &&& self.comm_r is Some
        &&& forall|i: int| 0 <= i < self.comm_layers@.len() ==> self.comm_layers@[i] is Some
    }

    /// The circuit's shape matches its parameters: as many layer roots as
    /// layers, and every layer proof fit for synthesis.
    pub open spec fn shape_wf(self) -> bool {
        &&& self.public_params.wf()
        &&& self.comm_layers@.len() == self.public_params.config.spec_num_layers()
        &&& forall|j: int|
            0 <= j < self.layer_proofs@.len() ==> lp_wf(
                self.public_params.config,
                #[trigger] self.layer_proofs@[j],
            )
    }

    /// The public inputs the circuit allocates, in order: replica
    /// identity, data commitment, replica commitment, then every packed
    /// challenge of every layer proof.
    pub open spec fn circuit_inputs(self) -> Seq<Seq<u8>> {
        seq![self.replica_id->0@, self.comm_d->0@, self.comm_r->0@] + lps_inputs(
            self.layer_proofs@,
        )
    }

    /// The number of constraints synthesis records.
    pub open spec fn circuit_cost(self) -> int {
        260 + md_chunks(self.comm_layers@.len() as int) + 1 + lps_cost(self.layer_proofs@)
    }

    /// Whether the synthesized system is satisfiable: the replica
    /// commitment binds the layer roots, and every layer proof checks.
    pub open spec fn circuit_sat(self) -> bool {
        &&& self.comm_r->0@ == comm_r_of(comm_layer_views(self.comm_layers@))
        &&& forall|j: int|
            0 <= j < self.layer_proofs@.len() ==> layer_proof_ok(
                self.public_params.config,
                self.replica_id->0@,
                self.comm_d->0@,
                comm_layer_views(self.comm_layers@),
                #[trigger] self.layer_proofs@[j],
            )
    }

    /// Synthesize the whole circuit. Allocation order is fixed: replica
    /// identity (input, then its bit decomposition), data commitment,
    /// replica commitment, the layer-root witnesses with the commitment
    /// fold binding them to the replica commitment, then every layer
    /// proof. Consumes the circuit; fails exactly when a needed witness
    /// is unassigned.
    pub fn synthesize(self, cs: &mut ConstraintSystem) -> (r: Result<(), SynthesisError>)
        requires
            self.shape_wf(),
        ensures
            r is Err <==> !self.assigned(),
            r is Ok ==> final(cs).input_views() == old(cs).input_views() + self.circuit_inputs(),
            r is Ok ==> final(cs).constraints@.len() == old(cs).constraints@.len()
                + self.circuit_cost(),
            r is Ok ==> final(cs).spec_satisfied() == (old(cs).spec_satisfied()
                && self.circuit_sat()),
    {
        let ghost c = self;
        let ghost base = old(cs).input_views();
        let ghost base_len = old(cs).constraints@.len() as int;
        let ghost base_sat = old(cs).spec_satisfied();
        let NseCircuit { public_params, replica_id, comm_r, comm_d, layer_proofs, comm_layers } =
            self;
        let rid = match replica_id {
            Some(d) => d,
            None => {
                return Err(SynthesisError::AssignmentMissing);
            },
        };
        let comm_d_v = match comm_d {
            Some(d) => d,
            None => {
                return Err(SynthesisError::AssignmentMissing);
            },
        };
        let comm_r_v = match comm_r {
            Some(d) => d,
            None => {
                return Err(SynthesisError::AssignmentMissing);
            },
        };
        cs.alloc_input(&rid);
        cs.charge(257);
        cs.alloc_input(&comm_d_v);
        cs.alloc_input(&comm_r_v);
        let n_layers = comm_layers.len();
        let mut layer_doms: Vec<Domain> = Vec::new();
        let mut i: usize = 0;
        while i < n_layers
            invariant
                i <= n_layers,
                c == self,
                n_layers == comm_layers@.len(),
                comm_layers@ == c.comm_layers@,
                layer_doms@.len() == i,
                forall|m: int| 0 <= m < i ==> comm_layers@[m] is Some,
                forall|m: int| 0 <= m < i ==> (#[trigger] layer_doms@[m])@ == comm_layers@[m]->0@,
            decreases n_layers - i,
        {
            match &comm_layers[i] {
                Some(d) => {
                    layer_doms.push(d.dup());
                },
                None => {
                    proof {
                        assert(c.comm_layers@[i as int] is None);
                        assert(!c.assigned());
                    }
                    return Err(SynthesisError::AssignmentMissing);
                },
            }
            i += 1;
        }
        proof {
            assert forall|m: int| 0 <= m < n_layers implies views(layer_doms@)[m]
                == comm_layer_views(c.comm_layers@)[m] by {
                assert(views(layer_doms@)[m] == layer_doms@[m]@);
                assert(comm_layer_views(c.comm_layers@)[m] == c.comm_layers@[m]->0@);
            }
            assert(views(layer_doms@) =~= comm_layer_views(c.comm_layers@));
        }
        let md = hash_md(&layer_doms);
        let q = n_layers / 8;
        let rem = n_layers % 8;
        let chunks = if rem == 0 {
            q
        } else {
            q + 1
        };
        proof {
            assert(chunks == md_chunks(n_layers as int)) by (nonlinear_arith)
                requires
                    q == n_layers as int / 8,
                    rem == n_layers as int % 8,
                    chunks == (if rem == 0 {
                        q as int
                    } else {
                        q + 1
                    }),
                    md_chunks(n_layers as int) == (n_layers as int + pad_count(
                        n_layers as int,
                    )) / 8,
                    pad_count(n_layers as int) == (if (n_layers as int) % 8 == 0 {
                        0int
                    } else {
                        8 - ((n_layers as int) % 8)
                    }),
            ;
        }
        cs.charge(chunks);
        cs.enforce_equal(&comm_r_v, &md);
        let ghost comm_ok = (c.comm_r->0@ == comm_r_of(comm_layer_views(c.comm_layers@)));
        let ghost orig_lps = c.layer_proofs@;
        let mut layer_proofs = layer_proofs;
        let nl = layer_proofs.len();
        let mut j: usize = 0;
        proof {
            assert(orig_lps.skip(0) =~= orig_lps);
            assert(lps_inputs(orig_lps.take(0)) == Seq::<Seq<u8>>::empty()) by {
                assert(orig_lps.take(0) =~= Seq::<LayerProof>::empty());
            }
            assert(lps_cost(orig_lps.take(0)) == 0) by {
                assert(orig_lps.take(0) =~= Seq::<LayerProof>::empty());
            }
            assert(cs.input_views() =~= base + seq![c.replica_id->0@, c.comm_d->0@, c.comm_r->0@]
                + lps_inputs(orig_lps.take(0)));
        }
        while j < nl
            invariant
                j <= nl,
                nl == orig_lps.len(),
                layer_proofs@ == orig_lps.skip(j as int),
                public_params == c.public_params,
                public_params.wf(),
                rid@ == c.replica_id->0@,
                comm_d_v@ == c.comm_d->0@,
                comm_r_v@ == c.comm_r->0@,
                layer_doms@.len() == c.public_params.config.spec_num_layers(),
                views(layer_doms@) == comm_layer_views(c.comm_layers@),
                forall|m: int|
                    0 <= m < nl ==> lp_wf(c.public_params.config, #[trigger] orig_lps[m]),
                cs.input_views() == base + seq![c.replica_id->0@, c.comm_d->0@, c.comm_r->0@]
                    + lps_inputs(orig_lps.take(j as int)),
                cs.constraints@.len() == base_len + 260 + md_chunks(c.comm_layers@.len() as int)
                    + 1 + lps_cost(orig_lps.take(j as int)),
                cs.spec_satisfied() == (base_sat && comm_ok && (forall|m: int|
                    0 <= m < j ==> layer_proof_ok(
                        c.public_params.config,
                        c.replica_id->0@,
                        c.comm_d->0@,
                        comm_layer_views(c.comm_layers@),
                        #[trigger] orig_lps[m],
                    ))),
            decreases nl - j,
        {
            let lp = layer_proofs.remove(0);
            proof {
                assert(orig_lps.skip(j as int)[0] == orig_lps[j as int]);
                assert(orig_lps.skip(j as int).remove(0) =~= orig_lps.skip(j + 1));
            }
            lp.synthesize(cs, &public_params.config, &comm_d_v, &layer_doms, &rid);
            proof {
                assert(orig_lps.take(j + 1) =~= orig_lps.take(j as int).push(orig_lps[j as int]));
                lemma_lps_inputs_push(orig_lps.take(j as int), orig_lps[j as int]);
                lemma_lps_cost_push(orig_lps.take(j as int), orig_lps[j as int]);
                assert((base + seq![c.replica_id->0@, c.comm_d->0@, c.comm_r->0@] + lps_inputs(
                    orig_lps.take(j as int),
                )) + lp_input_views(orig_lps[j as int]) =~= base + seq![
                    c.replica_id->0@,
                    c.comm_d->0@,
                    c.comm_r->0@,
                ] + lps_inputs(orig_lps.take(j + 1)));
            }
            j += 1;
        }
        proof {
            assert(orig_lps.take(nl as int) =~= orig_lps);
            assert(cs.input_views() =~= base + c.circuit_inputs());
        }
        Ok(())
    }
}


/// The partition a public-input vector is generated for: an explicit
/// request wins, then the partition named in the public inputs, then the
/// first.
pub open spec fn resolved_partition(pub_in: PublicInputs, partition_k: Option<u64>) -> u64 {
    if partition_k is Some {
        partition_k->0
    } else if pub_in.k is Some {
        pub_in.k->0
    } else {
        0
    }
}

/// The public-input vector a verifier reconstructs: replica identity,
/// data commitment, replica commitment, then every packed challenge in
/// counter order.
pub open spec fn native_inputs(pp: PublicParams, pub_in: PublicInputs, partition: u64) -> Seq<
    Seq<u8>,
> {
    let nn = (pp.config.k * pp.config.num_nodes_window) as u64;
    seq![pub_in.replica_id@, pub_in.tau.comm_d@, pub_in.tau.comm_r@] + Seq::new(
        (pp.num_layer_challenges * pp.config.spec_num_layers()) as nat,
        |i: int|
            domain_of_u64(
                challenge_of(pub_in.replica_id@, pub_in.seed@, partition, i as u64, nn),
            ),
    )
}

/// Generate the public-input vector from the public inputs alone.
pub fn generate_public_inputs(
    pub_in: &PublicInputs,
    pp: &PublicParams,
    partition_k: Option<u64>,
) -> (r: Vec<Domain>)
    requires
        pp.wf(),
    ensures
        views(r@) == native_inputs(*pp, *pub_in, resolved_partition(*pub_in, partition_k)),
{
    let partition = match partition_k {
        Some(k) => k,
        None => match pub_in.k {
            Some(k) => k,
            None => 0,
        },
    };
    let nn = pp.config.num_nodes_sector();
    let nl = pp.config.num_layers();
    proof {
        assert(pp.num_layer_challenges * nl >= 0) by (nonlinear_arith)
            requires
                pp.num_layer_challenges >= 1,
                nl >= 2,
        ;
    }
    let total = pp.num_layer_challenges * nl;
    let mut r: Vec<Domain> = Vec::new();
    r.push(pub_in.replica_id.dup());
    r.push(pub_in.tau.comm_d.dup());
    r.push(pub_in.tau.comm_r.dup());
    let mut i: u64 = 0;
    while i < total
        invariant
            i <= total,
            pp.wf(),
            nn == pp.config.spec_num_nodes_sector(),
            nn >= 1,
            total == pp.num_layer_challenges * pp.config.spec_num_layers(),
            r@.len() == 3 + i,
            r@[0]@ == pub_in.replica_id@,
            r@[1]@ == pub_in.tau.comm_d@,
            r@[2]@ == pub_in.tau.comm_r@,
            forall|m: int|
                0 <= m < i ==> (#[trigger] r@[3 + m])@ == domain_of_u64(
                    challenge_of(pub_in.replica_id@, pub_in.seed@, partition, m as u64, nn as u64),
                ),
        decreases total - i,
    {
        let c = derive_challenge(&pub_in.replica_id, &pub_in.seed, partition, i, nn);
        r.push(domain_from_u64(c));
        i += 1;
    }
    proof {
        let expect = native_inputs(*pp, *pub_in, partition);
        assert forall|m: int| 0 <= m < expect.len() implies views(r@)[m] == expect[m] by {
            assert(views(r@)[m] == r@[m]@);
            if m >= 3 {
                assert(r@[3 + (m - 3)]@ == domain_of_u64(
                    challenge_of(
                        pub_in.replica_id@,
                        pub_in.seed@,
                        partition,
                        (m - 3) as u64,
                        nn as u64,
                    ),
                ));
            }
        }
        assert(views(r@) =~= expect);
    }
    r
}

/// One layer proof's inputs are the packed derived challenges of its
/// counter block.
pub proof fn lemma_lp_inputs_are_challenges(
    cfg: Config,
    lp: LayerProof,
    rid: Seq<u8>,
    seed: Seq<u8>,
    partition: u64,
    j: int,
)
    requires
        cfg.wf(),
        crate::scheme::lp_challenges_ok(cfg, lp, rid, seed, partition, j),
        0 <= j,
        (j + 1) * cfg.spec_num_layers() <= u64::MAX,
    ensures
        lp_input_views(lp) == Seq::new(
            cfg.spec_num_layers() as nat,
            |l: int|
                domain_of_u64(
                    challenge_of(
                        rid,
                        seed,
                        partition,
                        (j * cfg.spec_num_layers() + l) as u64,
                        (cfg.k * cfg.num_nodes_window) as u64,
                    ),
                ),
        ),
{
    let nl = cfg.spec_num_layers();
    let nn = (cfg.k * cfg.num_nodes_window) as u64;
    let base = j * nl;
    let e = cfg.num_expander_layers as int;
    let b = cfg.num_butterfly_layers as int;
    let expect = Seq::new(
        nl as nat,
        |l: int| domain_of_u64(challenge_of(rid, seed, partition, (base + l) as u64, nn)),
    );
    assert(j * nl >= 0 && j * nl + nl <= u64::MAX) by (nonlinear_arith)
        requires
            nl >= 2,
            j >= 0,
            (j + 1) * nl <= u64::MAX,
    ;
    assert((cfg.k * cfg.num_nodes_window) as u64 >= 1) by (nonlinear_arith)
        requires
            cfg.k >= 1,
            cfg.num_nodes_window >= 1,
            cfg.k * cfg.num_nodes_window <= u64::MAX,
    ;
    assert forall|l: int| 0 <= l < nl implies lp_input_views(lp)[l] == expect[l] by {
        if l == 0 {
            assert(lp_input_views(lp)[0] == domain_of_u64(lp.first_layer_proof.challenge));
        } else if l <= e {
            assert(lp_input_views(lp)[l] == challenge_doms(lp.expander_layer_proofs@)[l - 1]);
            assert(challenge_doms(lp.expander_layer_proofs@)[l - 1] == domain_of_u64(
                lp.expander_layer_proofs@[l - 1].challenge,
            ));
            assert(lp.expander_layer_proofs@[l - 1].challenge == challenge_of(
                rid,
                seed,
                partition,
                (base + 1 + (l - 1)) as u64,
                nn,
            ));
        } else if l <= e + b {
            assert(lp_input_views(lp)[l] == challenge_doms(lp.butterfly_layer_proofs@)[l - 1
                - e]);
            assert(challenge_doms(lp.butterfly_layer_proofs@)[l - 1 - e] == domain_of_u64(
                lp.butterfly_layer_proofs@[l - 1 - e].challenge,
            ));
            assert(lp.butterfly_layer_proofs@[l - 1 - e].challenge == challenge_of(
                rid,
                seed,
                partition,
                (base + 1 + e + (l - 1 - e)) as u64,
                nn,
            ));
        } else {
            assert(l == nl - 1);
            assert(lp_input_views(lp)[l] == domain_of_u64(lp.last_layer_proof.challenge));
        }
    }
    assert(lp_input_views(lp) =~= expect);
}

/// The inputs of a run of layer proofs are the packed derived challenges
/// in counter order.
#[verifier::rlimit(100)]
pub proof fn lemma_lps_inputs_are_challenges(
    cfg: Config,
    lps: Seq<LayerProof>,
    rid: Seq<u8>,
    seed: Seq<u8>,
    partition: u64,
    j0: int,
)
    requires
        cfg.wf(),
        0 <= j0,
        (j0 + lps.len()) * cfg.spec_num_layers() <= u64::MAX,
        forall|j: int|
            0 <= j < lps.len() ==> crate::scheme::lp_challenges_ok(
                cfg,
                #[trigger] lps[j],
                rid,
                seed,
                partition,
                j0 + j,
            ),
    ensures
        lps_inputs(lps) == Seq::new(
            (lps.len() * cfg.spec_num_layers()) as nat,
            |i: int|
                domain_of_u64(
                    challenge_of(
                        rid,
                        seed,
                        partition,
                        (j0 * cfg.spec_num_layers() + i) as u64,
                        (cfg.k * cfg.num_nodes_window) as u64,
                    ),
                ),
        ),
    decreases lps.len(),
{
    let nl = cfg.spec_num_layers();
    let nn = (cfg.k * cfg.num_nodes_window) as u64;
    let expect = Seq::new(
        (lps.len() * nl) as nat,
        |i: int| domain_of_u64(challenge_of(rid, seed, partition, (j0 * nl + i) as u64, nn)),
    );
    if lps.len() == 0 {
        assert(lps_inputs(lps) == Seq::<Seq<u8>>::empty());
        assert(lps_inputs(lps) =~= expect);
    } else {
        assert((j0 + 1) * nl <= (j0 + lps.len()) * nl) by (nonlinear_arith)
            requires
                nl >= 2,
                lps.len() >= 1,
                j0 >= 0,
        ;
        lemma_lp_inputs_are_challenges(cfg, lps[0], rid, seed, partition, j0);
        assert(forall|j: int|
            0 <= j < lps.skip(1).len() ==> crate::scheme::lp_challenges_ok(
                cfg,
                #[trigger] lps.skip(1)[j],
                rid,
                seed,
                partition,
                (j0 + 1) + j,
            ));
        assert(((j0 + 1) + lps.skip(1).len()) * nl <= u64::MAX);
        lemma_lps_inputs_are_challenges(cfg, lps.skip(1), rid, seed, partition, j0 + 1);
        assert(lps_inputs(lps) == lp_input_views(lps[0]) + lps_inputs(lps.skip(1)));
        assert forall|i: int| 0 <= i < expect.len() implies (lp_input_views(lps[0]) + lps_inputs(
            lps.skip(1),
        ))[i] == expect[i] by {
            assert((j0 + 1) * nl == j0 * nl + nl) by (nonlinear_arith);
            assert((lps.len() - 1) * nl == lps.len() * nl - nl) by (nonlinear_arith);
            if i < nl {
                assert(lp_input_views(lps[0])[i] == domain_of_u64(
                    challenge_of(rid, seed, partition, (j0 * nl + i) as u64, nn),
                ));
            } else {
                assert(lps_inputs(lps.skip(1))[i - nl] == domain_of_u64(
                    challenge_of(
                        rid,
                        seed,
                        partition,
                        ((j0 + 1) * nl + (i - nl)) as u64,
                        nn,
                    ),
                ));
                assert((j0 + 1) * nl + (i - nl) == j0 * nl + i);
            }
        }
        assert(lp_input_views(lps[0]).len() == nl);
        assert(lps_inputs(lps.skip(1)).len() == lps.skip(1).len() * nl);
        assert(nl + (lps.len() - 1) * nl == lps.len() * nl) by (nonlinear_arith);
        assert(lps_inputs(lps) =~= expect);
    }
}

/// Public-input ordering: the vector the native generator produces is,
/// element for element, the sequence of public inputs the circuit
/// allocates during synthesis (the constant input excluded), whenever the
/// circuit carries the same identity and commitments and its layer
/// proofs carry the derived challenges.
pub proof fn lemma_public_input_ordering(
    c: NseCircuit,
    pp: PublicParams,
    pub_in: PublicInputs,
    partition: u64,
)
    requires
        c.public_params == pp,
        pp.wf(),
        c.replica_id->0@ == pub_in.replica_id@,
        c.comm_d->0@ == pub_in.tau.comm_d@,
        c.comm_r->0@ == pub_in.tau.comm_r@,
        c.layer_proofs@.len() == pp.num_layer_challenges,
        (pp.num_layer_challenges + 1) * pp.config.spec_num_layers() <= u64::MAX,
        forall|j: int|
            0 <= j < c.layer_proofs@.len() ==> crate::scheme::lp_challenges_ok(
                pp.config,
                #[trigger] c.layer_proofs@[j],
                pub_in.replica_id@,
                pub_in.seed@,
                partition,
                j,
            ),
    ensures
        c.circuit_inputs() == native_inputs(pp, pub_in, partition),
{
    let nl = pp.config.spec_num_layers();
    assert((0 + c.layer_proofs@.len()) * nl <= (pp.num_layer_challenges + 1) * nl)
        by (nonlinear_arith)
        requires
            nl >= 2,
            c.layer_proofs@.len() == pp.num_layer_challenges,
    ;
    lemma_lps_inputs_are_challenges(
        pp.config,
        c.layer_proofs@,
        pub_in.replica_id@,
        pub_in.seed@,
        partition,
        0,
    );
    assert forall|i: int| 0 <= i < c.circuit_inputs().len() implies c.circuit_inputs()[i]
        == native_inputs(pp, pub_in, partition)[i] by {
        if i >= 3 {
            assert(c.circuit_inputs()[i] == lps_inputs(c.layer_proofs@)[i - 3]);
            assert(native_inputs(pp, pub_in, partition)[i] == Seq::new(
                (pp.num_layer_challenges * nl) as nat,
                |m: int|
                    domain_of_u64(
                        challenge_of(
                            pub_in.replica_id@,
                            pub_in.seed@,
                            partition,
                            m as u64,
                            (pp.config.k * pp.config.num_nodes_window) as u64,
                        ),
                    ),
            )[i - 3]);
        }
    }
    assert(c.circuit_inputs() =~= native_inputs(pp, pub_in, partition));
}


/// Commitment invariant, circuit side: a circuit whose replica commitment
/// does not equal the fold of its layer roots synthesizes an unsatisfiable
/// system.
pub proof fn lemma_commitment_binding(c: NseCircuit)
    requires
        c.comm_r->0@ != comm_r_of(comm_layer_views(c.comm_layers@)),
    ensures
        !c.circuit_sat(),
{
}

/// Tamper detection, circuit side: if any layer proof fails any of its
/// checks, the synthesized system is unsatisfiable.
pub proof fn lemma_tampered_layer_breaks_circuit(c: NseCircuit, j: int)
    requires
        0 <= j < c.layer_proofs@.len(),
        !layer_proof_ok(
            c.public_params.config,
            c.replica_id->0@,
            c.comm_d->0@,
            comm_layer_views(c.comm_layers@),
            c.layer_proofs@[j],
        ),
    ensures
        !c.circuit_sat(),
{
}


impl NseCircuit {
    /// Build the circuit for one partition from the public inputs and a
    /// partition proof; every witness is assigned.
    pub fn from_proof(pub_in: &PublicInputs, proof: crate::scheme::Proof, pp: &PublicParams) -> (r:
        NseCircuit)
        ensures
            r.public_params == pp,
            r.assigned(),
            r.replica_id->0@ == pub_in.replica_id@,
            r.comm_d->0@ == pub_in.tau.comm_d@,
            r.comm_r->0@ == pub_in.tau.comm_r@,
            r.layer_proofs == proof.layer_proofs,
            comm_layer_views(r.comm_layers@) == views(proof.comm_layers@),
    {
        let ghost roots = proof.comm_layers@;
        let crate::scheme::Proof { comm_layers, layer_proofs } = proof;
        let mut wrapped: Vec<Option<Domain>> = Vec::new();
        let n = comm_layers.len();
        let mut i: usize = 0;
        let mut comm_layers = comm_layers;
        while i < n
            invariant
                i <= n,
                comm_layers@ == roots.skip(i as int),
                n == roots.len(),
                wrapped@.len() == i,
                forall|m: int| 0 <= m < i ==> (#[trigger] wrapped@[m]) is Some,
                forall|m: int| 0 <= m < i ==> (#[trigger] wrapped@[m])->0@ == roots[m]@,
            decreases n - i,
        {
            proof {
                assert(roots.skip(i as int)[0] == roots[i as int]);
                assert(roots.skip(i as int).remove(0) =~= roots.skip(i + 1));
            }
            let d = comm_layers.remove(0);
            wrapped.push(Some(d));
            i += 1;
        }
        let r = NseCircuit {
            public_params: PublicParams {
                config: pp.config,
                num_layer_challenges: pp.num_layer_challenges,
            },
            replica_id: Some(pub_in.replica_id.dup()),
            comm_r: Some(pub_in.tau.comm_r.dup()),
            comm_d: Some(pub_in.tau.comm_d.dup()),
            layer_proofs,
            comm_layers: wrapped,
        };
        proof {
            assert forall|m: int| 0 <= m < roots.len() implies comm_layer_views(r.comm_layers@)[m]
                == views(roots)[m] by {
                assert(comm_layer_views(r.comm_layers@)[m] == r.comm_layers@[m]->0@);
            }
            assert(comm_layer_views(r.comm_layers@) =~= views(roots));
        }
        r
    }

    /// The circuit with no witnesses assigned, as a verifying key setup
    /// would shape it; synthesis on it reports a missing assignment.
    pub fn blank(pp: &PublicParams) -> (r: NseCircuit)
        requires
            pp.wf(),
            pp.config.spec_num_layers() <= usize::MAX,
        ensures
            r.public_params == pp,
            !r.assigned(),
            r.shape_wf(),
    {
        let nl = pp.config.num_layers() as usize;
        let mut comm_layers: Vec<Option<Domain>> = Vec::new();
        let mut i: usize = 0;
        while i < nl
            invariant
                i <= nl,
                comm_layers@.len() == i,
                forall|m: int| 0 <= m < i ==> (#[trigger] comm_layers@[m]) is None,
            decreases nl - i,
        {
            comm_layers.push(None);
            i += 1;
        }
        NseCircuit {
            public_params: PublicParams {
                config: pp.config,
                num_layer_challenges: pp.num_layer_challenges,
            },
            replica_id: None,
            comm_r: None,
            comm_d: None,
            layer_proofs: Vec::new(),
            comm_layers,
        }
    }
}

} // verus!
