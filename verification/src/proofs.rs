//! Node and layer proofs, and their native verification.
//!
//! A node proof opens one challenged node against the data commitment and
//! one layer commitment, and carries authenticated parent openings for the
//! parent-bearing layers. A layer proof aggregates one node proof per
//! layer for a single challenge counter. Verification recomputes every
//! label from the declared parent values and folds every opening; the
//! result is a boolean, never an error.
use vstd::prelude::*;
use crate::Config;
use crate::challenges::parent_of;
use crate::challenges::derive_parent;
use crate::hashing::{Domain, views};
use crate::labels::{
    first_label_of, expander_label_of, butterfly_label_of, derive_first_layer_label,
    derive_expander_layer_label, derive_butterfly_layer_label,
};
use crate::merkle::{PathElement, elem_in_bounds, fold_path, verify_inclusion};

verus! {

/// An authenticated opening of one parent label in the layer below.
pub struct ParentOpening {
    /// The parent's node index.
    pub index: u64,
    /// The parent's label value.
    pub value: Domain,
    /// The opening of that value against the previous layer's root.
    pub path: Vec<PathElement>,
}

/// An opening of one challenged node: data-tree inclusion, layer-tree
/// inclusion, and the parent openings its label derivation depends on.
pub struct NodeProof {
    /// The challenged node index.
    pub challenge: u64,
    /// The original data value at that index.
    pub data_leaf: Domain,
    /// The opening of the data value against `comm_d`.
    pub data_path: Vec<PathElement>,
    /// The opening of the derived label against the layer's root.
    pub layer_path: Vec<PathElement>,
    /// The parent openings, empty on the first layer.
    pub parents: Vec<ParentOpening>,
}

/// One node proof per layer, for a single challenge counter.
pub struct LayerProof {
    /// The first layer's node proof.
    pub first_layer_proof: NodeProof,
    /// The expander layers' node proofs, in layer order.
    pub expander_layer_proofs: Vec<NodeProof>,
    /// The butterfly layers' node proofs, in layer order.
    pub butterfly_layer_proofs: Vec<NodeProof>,
    /// The last layer's node proof.
    pub last_layer_proof: NodeProof,
}

/// Every element of an opening keeps its position inside its sibling
/// group.
pub open spec fn path_in_bounds(p: Seq<PathElement>) -> bool {
    forall|i: int| 0 <= i < p.len() ==> elem_in_bounds(#[trigger] p[i])
}

/// Check that an opening's positions are in bounds.
fn check_path_bounds(p: &Vec<PathElement>) -> (r: bool)
    ensures
        r == path_in_bounds(p@),
{
    let n = p.len();
    let mut i: usize = 0;
    while i < n
        invariant
            i <= n,
            n == p@.len(),
            forall|j: int| 0 <= j < i ==> elem_in_bounds(#[trigger] p@[j]),
        decreases n - i,
    {
        if p[i].position > p[i].siblings.len() {
            assert(!elem_in_bounds(p@[i as int]));
            return false;
        }
        i += 1;
    }
    true
}

/// A node proof checks against the commitments: the challenge is a node of
/// the sector, the data value is included under `comm_d`, and the given
/// leaf is included under the layer root.
pub open spec fn node_ok(
    np: NodeProof,
    comm_d: Seq<u8>,
    layer_root: Seq<u8>,
    leaf: Seq<u8>,
    num_nodes: int,
) -> bool {
    &&& np.challenge < num_nodes
    &&& path_in_bounds(np.data_path@)
    &&& path_in_bounds(np.layer_path@)
    &&& fold_path(np.data_leaf@, np.data_path@) == comm_d
    &&& fold_path(leaf, np.layer_path@) == layer_root
}

/// Check a node proof against the commitments.
fn check_node(
    np: &NodeProof,
    comm_d: &Domain,
    layer_root: &Domain,
    leaf: &Domain,
    num_nodes: u64,
) -> (r: bool)
    ensures
        r == node_ok(*np, comm_d@, layer_root@, leaf@, num_nodes as int),
{
    if np.challenge >= num_nodes {
        return false;
    }
    if !check_path_bounds(&np.data_path) {
        return false;
    }
    if !check_path_bounds(&np.layer_path) {
        return false;
    }
    if !verify_inclusion(&np.data_leaf, &np.data_path, comm_d) {
        return false;
    }
    verify_inclusion(leaf, &np.layer_path, layer_root)
}

/// The declared parent label values, in opening order.
pub open spec fn parent_values(np: NodeProof) -> Seq<Seq<u8>> {
    np.parents@.map_values(|p: ParentOpening| p.value@)
}

/// The parent openings check: the right count, each at the index the graph
/// derives, and each value authenticated against the previous layer's
/// root.
pub open spec fn parents_ok(
    np: NodeProof,
    cfg: Config,
    layer: u64,
    degree: u64,
    prev_root: Seq<u8>,
) -> bool {
    &&& np.parents@.len() == degree
    &&& forall|j: int|
        0 <= j < np.parents@.len() ==> {
            let p = #[trigger] np.parents@[j];
            &&& p.index == parent_of(cfg, layer, np.challenge, j as u64)
            &&& path_in_bounds(p.path@)
            &&& fold_path(p.value@, p.path@) == prev_root
        }
}

/// Check the parent openings of a node proof.
fn check_parents(
    np: &NodeProof,
    cfg: &Config,
    layer: u64,
    degree: u64,
    prev_root: &Domain,
) -> (r: bool)
    requires
        cfg.wf(),
        np.challenge < cfg.spec_num_nodes_sector(),
    ensures
        r == parents_ok(*np, *cfg, layer, degree, prev_root@),
{
    if np.parents.len() as u64 != degree {
        return false;
    }
    let n = np.parents.len();
    let mut j: usize = 0;
    while j < n
        invariant
            j <= n,
            n == np.parents@.len(),
            cfg.wf(),
            np.challenge < cfg.spec_num_nodes_sector(),
            forall|m: int|
                0 <= m < j ==> {
                    let p = #[trigger] np.parents@[m];
                    &&& p.index == parent_of(*cfg, layer, np.challenge, m as u64)
                    &&& path_in_bounds(p.path@)
                    &&& fold_path(p.value@, p.path@) == prev_root@
                },
        decreases n - j,
    {
        let expected = derive_parent(cfg, layer, np.challenge, j as u64);
        if np.parents[j].index != expected {
            return false;
        }
        if !check_path_bounds(&np.parents[j].path) {
            return false;
        }
        if !verify_inclusion(&np.parents[j].value, &np.parents[j].path, prev_root) {
            return false;
        }
        j += 1;
    }
    true
}

/// Copy out the declared parent values.
pub fn collect_parent_values(np: &NodeProof) -> (r: Vec<Domain>)
    ensures
        views(r@) == parent_values(*np),
{
    let n = np.parents.len();
    let mut r: Vec<Domain> = Vec::new();
    let mut j: usize = 0;
    while j < n
        invariant
            j <= n,
            n == np.parents@.len(),
            r@.len() == j,
            forall|m: int| 0 <= m < j ==> r@[m]@ == np.parents@[m].value@,
        decreases n - j,
    {
        r.push(np.parents[j].value.dup());
        j += 1;
    }
    proof {
        assert forall|m: int| 0 <= m < n implies views(r@)[m] == parent_values(*np)[m] by {
            assert(views(r@)[m] == r@[m]@);
            assert(parent_values(*np)[m] == np.parents@[m].value@);
        }
        assert(views(r@) =~= parent_values(*np));
    }
    r
}

/// An expander-layer node proof checks: its leaf is the expander label
/// derived from its declared parents, both inclusions hold, and the
/// parents are authenticated against the previous layer.
pub open spec fn expander_proof_ok(
    cfg: Config,
    rid: Seq<u8>,
    comm_d: Seq<u8>,
    comm_layers: Seq<Seq<u8>>,
    np: NodeProof,
    i: int,
) -> bool {
    let layer = (i + 2) as u64;
    &&& node_ok(
        np,
        comm_d,
        comm_layers[layer - 1],
        expander_label_of(rid, layer, np.challenge, parent_values(np)),
        cfg.spec_num_nodes_sector(),
    )
    &&& parents_ok(np, cfg, layer, cfg.degree_expander, comm_layers[layer - 2])
}

/// A butterfly-layer (or last-layer) node proof checks, with the butterfly
/// label derivation and the butterfly degree.
pub open spec fn butterfly_proof_ok(
    cfg: Config,
    rid: Seq<u8>,
    comm_d: Seq<u8>,
    comm_layers: Seq<Seq<u8>>,
    np: NodeProof,
    layer: u64,
) -> bool {
    &&& node_ok(
        np,
        comm_d,
        comm_layers[layer - 1],
        butterfly_label_of(rid, layer, np.challenge, parent_values(np)),
        cfg.spec_num_nodes_sector(),
    )
    &&& parents_ok(np, cfg, layer, cfg.degree_butterfly, comm_layers[layer - 2])
}

/// A whole layer proof checks: the first layer's leaf is its derived
/// label and it carries no parent openings, every expander and butterfly
/// layer's leaf is the label derived from its authenticated parents, and
/// the last layer closes the chain.
pub open spec fn layer_proof_ok(
    cfg: Config,
    rid: Seq<u8>,
    comm_d: Seq<u8>,
    comm_layers: Seq<Seq<u8>>,
    lp: LayerProof,
) -> bool {
    let e = cfg.num_expander_layers as int;
    let b = cfg.num_butterfly_layers as int;
    &&& lp.expander_layer_proofs@.len() == e
    &&& lp.butterfly_layer_proofs@.len() == b
    &&& node_ok(
        lp.first_layer_proof,
        comm_d,
        comm_layers[0],
        first_label_of(rid, lp.first_layer_proof.challenge),
        cfg.spec_num_nodes_sector(),
    )
    &&& lp.first_layer_proof.parents@.len() == 0
    &&& forall|i: int|
        0 <= i < e ==> expander_proof_ok(
            cfg,
            rid,
            comm_d,
            comm_layers,
            #[trigger] lp.expander_layer_proofs@[i],
            i,
        )
    &&& forall|i: int|
        0 <= i < b ==> butterfly_proof_ok(
            cfg,
            rid,
            comm_d,
            comm_layers,
            #[trigger] lp.butterfly_layer_proofs@[i],
            (e + 2 + i) as u64,
        )
    &&& butterfly_proof_ok(
        cfg,
        rid,
        comm_d,
        comm_layers,
        lp.last_layer_proof,
        cfg.spec_num_layers() as u64,
    )
}

/// Check one butterfly-class node proof at the given layer.
fn check_butterfly_class(
    cfg: &Config,
    rid: &Domain,
    comm_d: &Domain,
    comm_layers: &Vec<Domain>,
    np: &NodeProof,
    layer: u64,
) -> (r: bool)
    requires
        cfg.wf(),
        comm_layers@.len() == cfg.spec_num_layers(),
        2 <= layer <= cfg.spec_num_layers(),
    ensures
        r == butterfly_proof_ok(
            *cfg,
            rid@,
            comm_d@,
            views(comm_layers@),
            *np,
            layer,
        ),
{
    let values = collect_parent_values(np);
    let leaf = derive_butterfly_layer_label(rid, layer, np.challenge, &values);
    let num_nodes = cfg.num_nodes_sector();
    let n_layers = comm_layers.len();
    assert(n_layers == cfg.spec_num_layers());
    let layer_idx = (layer - 1) as usize;
    let prev_idx = (layer - 2) as usize;
    proof {
        assert(layer_idx as int == layer - 1);
        assert(prev_idx as int == layer - 2);
        assert(views(comm_layers@)[layer_idx as int] == comm_layers@[layer_idx as int]@);
        assert(views(comm_layers@)[prev_idx as int] == comm_layers@[prev_idx as int]@);
    }
    if !check_node(np, comm_d, &comm_layers[layer_idx], &leaf, num_nodes) {
        return false;
    }
    check_parents(np, cfg, layer, cfg.degree_butterfly, &comm_layers[prev_idx])
}

/// Verify a whole layer proof against the commitments.
pub fn verify_layer_proof(
    cfg: &Config,
    rid: &Domain,
    comm_d: &Domain,
    comm_layers: &Vec<Domain>,
    lp: &LayerProof,
) -> (r: bool)
    requires
        cfg.wf(),
        comm_layers@.len() == cfg.spec_num_layers(),
    ensures
        r == layer_proof_ok(*cfg, rid@, comm_d@, views(comm_layers@), *lp),
{
    let e = cfg.num_expander_layers;
    let b = cfg.num_butterfly_layers;
    let num_nodes = cfg.num_nodes_sector();
    if lp.expander_layer_proofs.len() as u64 != e {
        return false;
    }
    if lp.butterfly_layer_proofs.len() as u64 != b {
        return false;
    }
    let first_leaf = derive_first_layer_label(rid, lp.first_layer_proof.challenge);
    proof {
        assert(views(comm_layers@)[0] == comm_layers@[0]@);
    }
    if !check_node(&lp.first_layer_proof, comm_d, &comm_layers[0], &first_leaf, num_nodes) {
        return false;
    }
    if lp.first_layer_proof.parents.len() != 0 {
        return false;
    }
    let ne = lp.expander_layer_proofs.len();
    let mut i: usize = 0;
    while i < ne
        invariant
            i <= ne,
            ne == lp.expander_layer_proofs@.len(),
            ne == cfg.num_expander_layers,
            num_nodes == cfg.spec_num_nodes_sector(),
            cfg.wf(),
            comm_layers@.len() == cfg.spec_num_layers(),
            forall|m: int|
                0 <= m < i ==> expander_proof_ok(
                    *cfg,
                    rid@,
                    comm_d@,
                    views(comm_layers@),
                    #[trigger] lp.expander_layer_proofs@[m],
                    m,
                ),
        decreases ne - i,
    {
        let np = &lp.expander_layer_proofs[i];
        let layer = (i as u64) + 2;
        let values = collect_parent_values(np);
        let leaf = derive_expander_layer_label(rid, layer, np.challenge, &values);
        let layer_idx = i + 1;
        let prev_idx = i;
        proof {
            assert(views(comm_layers@)[layer_idx as int] == comm_layers@[layer_idx as int]@);
            assert(views(comm_layers@)[prev_idx as int] == comm_layers@[prev_idx as int]@);
        }
        if !check_node(np, comm_d, &comm_layers[layer_idx], &leaf, num_nodes) {
            assert(!expander_proof_ok(
                *cfg,
                rid@,
                comm_d@,
                views(comm_layers@),
                lp.expander_layer_proofs@[i as int],
                i as int,
            ));
            return false;
        }
        if !check_parents(np, cfg, layer, cfg.degree_expander, &comm_layers[prev_idx]) {
            assert(!expander_proof_ok(
                *cfg,
                rid@,
                comm_d@,
                views(comm_layers@),
                lp.expander_layer_proofs@[i as int],
                i as int,
            ));
            return false;
        }
        i += 1;
    }
    let nb = lp.butterfly_layer_proofs.len();
    let mut i: usize = 0;
    while i < nb
        invariant
            i <= nb,
            nb == lp.butterfly_layer_proofs@.len(),
            nb == cfg.num_butterfly_layers,
            ne == cfg.num_expander_layers,
            num_nodes == cfg.spec_num_nodes_sector(),
            cfg.wf(),
            comm_layers@.len() == cfg.spec_num_layers(),
            forall|m: int|
                0 <= m < i ==> butterfly_proof_ok(
                    *cfg,
                    rid@,
                    comm_d@,
                    views(comm_layers@),
                    #[trigger] lp.butterfly_layer_proofs@[m],
                    (ne + 2 + m) as u64,
                ),
        decreases nb - i,
    {
        let np = &lp.butterfly_layer_proofs[i];
        let layer = (ne as u64) + 2 + (i as u64);
        if !check_butterfly_class(cfg, rid, comm_d, comm_layers, np, layer) {
            return false;
        }
        i += 1;
    }
    let last_layer = cfg.num_layers();
    check_butterfly_class(cfg, rid, comm_d, comm_layers, &lp.last_layer_proof, last_layer)
}

} // verus!
