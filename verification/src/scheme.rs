//! The native proof scheme: setup, replicate, prove, verify.
//!
//! Replication derives every label layer by layer, builds one Merkle tree
//! per layer plus the data tree, and folds the layer roots into the
//! replica commitment. Proving samples challenges deterministically and
//! opens every challenged node with its parents; verification re-derives
//! the challenges and every label and returns a boolean.
use vstd::prelude::*;
use crate::{Config, PublicParams, PublicInputs, SetupParams, Commitments};
use crate::challenges::{challenge_of, parent_of, derive_challenge, derive_parent};
use crate::commitment::comm_r_of;
use crate::hashing::{Domain, views, all_wf};
use crate::labels::{
    first_label_of, expander_label_of, butterfly_label_of, derive_first_layer_label,
    derive_expander_layer_label, derive_butterfly_layer_label,
};
use crate::merkle::{MerkleTree, chunks_ok, tree_root_of};
use crate::proofs::{
    NodeProof, LayerProof, ParentOpening, layer_proof_ok, verify_layer_proof, node_ok, parents_ok,
    parent_values, path_in_bounds, expander_proof_ok, butterfly_proof_ok,
};

verus! {

/// What can go wrong outside of a false verification: a malformed
/// configuration, or data that does not match the configured layout.
#[derive(Clone, Copy, Debug, PartialEq, Eq, Structural)]
pub enum Error {
    /// The configuration is malformed.
    InvalidConfig,
    /// The data does not match the configured layout.
    LayoutMismatch,
}

/// One partition's proof: the layer roots it commits to and one layer
/// proof per sampled challenge counter.
pub struct Proof {
    /// The per-layer tree roots.
    pub comm_layers: Vec<Domain>,
    /// The layer proofs, one per challenge counter.
    pub layer_proofs: Vec<LayerProof>,
}

/// The auxiliary state replication leaves behind: the data tree and one
/// tree per layer.
pub struct Aux {
    /// The tree over the original data.
    pub data_tree: MerkleTree,
    /// The label trees, one per layer, in layer order.
    pub layer_trees: Vec<MerkleTree>,
}

/// Produce public parameters; rejects a malformed configuration.
pub fn setup(sp: &SetupParams) -> (r: Result<PublicParams, Error>)
    ensures
        r is Ok <==> (sp.config.wf() && 1 <= sp.num_layer_challenges
            && sp.num_layer_challenges * sp.config.spec_num_layers() <= u64::MAX),
        r is Ok ==> (r->Ok_0).wf() && (r->Ok_0).config == sp.config && (r->Ok_0).num_layer_challenges
            == sp.num_layer_challenges,
{
    if !sp.config.is_valid() {
        return Err(Error::InvalidConfig);
    }
    if sp.num_layer_challenges < 1 {
        return Err(Error::InvalidConfig);
    }
    let layers = sp.config.num_layers();
    match sp.num_layer_challenges.checked_mul(layers) {
        Some(_) => Ok(
            PublicParams {
                config: Config { ..sp.config },
                num_layer_challenges: sp.num_layer_challenges,
            },
        ),
        None => Err(Error::InvalidConfig),
    }
}

/// The labels of one whole layer, as determined by the configuration and
/// the replica identity alone.
pub open spec fn layer_labels(cfg: Config, rid: Seq<u8>, layer: int) -> Seq<Seq<u8>>
    decreases layer,
    when 1 <= layer
{
    if layer == 1 {
        Seq::new(
            cfg.spec_num_nodes_sector() as nat,
            |n: int| first_label_of(rid, n as u64),
        )
    } else {
        let prev = layer_labels(cfg, rid, layer - 1);
        Seq::new(
            cfg.spec_num_nodes_sector() as nat,
            |n: int| node_label_from_prev(cfg, rid, layer as u64, n, prev),
        )
    }
}

/// One node's label, given the previous layer's labels.
pub open spec fn node_label_from_prev(
    cfg: Config,
    rid: Seq<u8>,
    layer: u64,
    n: int,
    prev: Seq<Seq<u8>>,
) -> Seq<u8> {
    if layer <= 1 + cfg.num_expander_layers {
        expander_label_of(
            rid,
            layer,
            n as u64,
            parent_labels(cfg, layer, n as u64, cfg.degree_expander, prev),
        )
    } else {
        butterfly_label_of(
            rid,
            layer,
            n as u64,
            parent_labels(cfg, layer, n as u64, cfg.degree_butterfly, prev),
        )
    }
}

/// The parent labels a node's derivation reads, in parent order.
pub open spec fn parent_labels(
    cfg: Config,
    layer: u64,
    challenge: u64,
    degree: u64,
    prev: Seq<Seq<u8>>,
) -> Seq<Seq<u8>> {
    Seq::new(degree as nat, |j: int| prev[parent_of(cfg, layer, challenge, j as u64) as int])
}

/// The auxiliary state matches the replica identity: every layer tree is
/// well formed and committed to exactly the derived labels.
pub open spec fn aux_ok(aux: Aux, pp: PublicParams, rid: Seq<u8>) -> bool {
    let cfg = pp.config;
    &&& aux.data_tree.wf()
    &&& aux.data_tree.leaf_count() == cfg.spec_num_nodes_sector()
    &&& aux.layer_trees@.len() == cfg.spec_num_layers()
    &&& forall|l: int|
        0 <= l < aux.layer_trees@.len() ==> {
            let t = #[trigger] aux.layer_trees@[l];
            &&& t.wf()
            &&& t.leaf_count() == cfg.spec_num_nodes_sector()
            &&& t.leaves() == layer_labels(cfg, rid, l + 1)
        }
}

/// The layer roots determined by the configuration, the replica identity
/// and the tree arity alone: the root of each layer's label tree.
pub open spec fn layer_roots_of(cfg: Config, rid: Seq<u8>, arity: int) -> Seq<Seq<u8>> {
    Seq::new(
        cfg.spec_num_layers() as nat,
        |l: int| tree_root_of(layer_labels(cfg, rid, l + 1), arity),
    )
}

/// The layer roots the auxiliary state commits to.
pub open spec fn aux_roots(aux: Aux) -> Seq<Seq<u8>> {
    Seq::new(aux.layer_trees@.len(), |l: int| aux.layer_trees@[l].root_view())
}

/// The challenges of one layer proof are exactly the derived ones for its
/// counter block.
pub open spec fn lp_challenges_ok(
    cfg: Config,
    lp: LayerProof,
    rid: Seq<u8>,
    seed: Seq<u8>,
    partition: u64,
    j: int,
) -> bool {
    let nl = cfg.spec_num_layers();
    let nn = (cfg.k * cfg.num_nodes_window) as u64;
    let base = j * nl;
    &&& lp.expander_layer_proofs@.len() == cfg.num_expander_layers
    &&& lp.butterfly_layer_proofs@.len() == cfg.num_butterfly_layers
    &&& lp.first_layer_proof.challenge == challenge_of(rid, seed, partition, base as u64, nn)
    &&& forall|i: int|
        0 <= i < lp.expander_layer_proofs@.len() ==> (#[trigger] lp.expander_layer_proofs@[i]).challenge
            == challenge_of(rid, seed, partition, (base + 1 + i) as u64, nn)
    &&& forall|i: int|
        0 <= i < lp.butterfly_layer_proofs@.len() ==> (#[trigger] lp.butterfly_layer_proofs@[i]).challenge
            == challenge_of(
            rid,
            seed,
            partition,
            (base + 1 + cfg.num_expander_layers + i) as u64,
            nn,
        )
    &&& lp.last_layer_proof.challenge == challenge_of(
        rid,
        seed,
        partition,
        (base + nl - 1) as u64,
        nn,
    )
}

/// A partition proof checks against the public-input values: the replica
/// commitment binds its layer roots, every layer proof checks against
/// them, and every challenge is the derived one.
pub open spec fn proof_ok(
    pp: PublicParams,
    rid: Seq<u8>,
    seed: Seq<u8>,
    comm_d: Seq<u8>,
    comm_r: Seq<u8>,
    proof: Proof,
    partition: u64,
) -> bool {
    let cfg = pp.config;
    let cls = views(proof.comm_layers@);
    &&& proof.comm_layers@.len() == cfg.spec_num_layers()
    &&& comm_r == comm_r_of(cls)
    &&& proof.layer_proofs@.len() == pp.num_layer_challenges
    &&& forall|j: int|
        0 <= j < proof.layer_proofs@.len() ==> layer_proof_ok(
            cfg,
            rid,
            comm_d,
            cls,
            #[trigger] proof.layer_proofs@[j],
        )
    &&& forall|j: int|
        0 <= j < proof.layer_proofs@.len() ==> lp_challenges_ok(
            cfg,
            #[trigger] proof.layer_proofs@[j],
            rid,
            seed,
            partition,
            j,
        )
}

/// All partition proofs check, each against its own partition index.
pub open spec fn all_proofs_ok(
    pp: PublicParams,
    rid: Seq<u8>,
    seed: Seq<u8>,
    comm_d: Seq<u8>,
    comm_r: Seq<u8>,
    proofs: Seq<Proof>,
) -> bool {
    forall|k: int|
        0 <= k < proofs.len() ==> proof_ok(
            pp,
            rid,
            seed,
            comm_d,
            comm_r,
            #[trigger] proofs[k],
            k as u64,
        )
}


/// Two domain elements combined byte for byte.
pub open spec fn xor32(a: Seq<u8>, b: Seq<u8>) -> Seq<u8> {
    Seq::new(32, |i: int| a[i] ^ b[i])
}

/// Combine a data value with its last-layer key.
fn combine(d: &Domain, key: &Domain) -> (r: Domain)
    requires
        d.wf(),
        key.wf(),
    ensures
        r@ == xor32(d@, key@),
        r.wf(),
{
    let mut bytes: Vec<u8> = Vec::new();
    let mut i: usize = 0;
    while i < 32
        invariant
            i <= 32,
            d.wf(),
            key.wf(),
            bytes@.len() == i,
            forall|m: int| 0 <= m < i ==> bytes@[m] == (d@[m] ^ key@[m]),
        decreases 32 - i,
    {
        bytes.push(d.bytes[i] ^ key.bytes[i]);
        i += 1;
    }
    proof {
        assert(bytes@ =~= xor32(d@, key@));
    }
    Domain { bytes }
}

/// Whether the leaf count folds to a single root at the given arity.
fn check_chunks(n: usize, arity: usize) -> (r: bool)
    ensures
        r == (n >= 1 && arity >= 2 && chunks_ok(n as int, arity as int)),
{
    if n < 1 || arity < 2 {
        return false;
    }
    let mut m = n;
    while m > 1
        invariant
            1 <= m <= n,
            arity >= 2,
            chunks_ok(n as int, arity as int) == chunks_ok(m as int, arity as int),
        decreases m,
    {
        if m % arity != 0 {
            assert(!chunks_ok(m as int, arity as int));
            return false;
        }
        let next = m / arity;
        proof {
            assert(1 <= next < m) by (nonlinear_arith)
                requires
                    next == m as int / arity as int,
                    (m as int) % (arity as int) == 0,
                    m >= 2,
                    arity >= 2,
            ;
            assert(chunks_ok(m as int, arity as int) == chunks_ok(next as int, arity as int));
        }
        m = next;
    }
    assert(chunks_ok(1int, arity as int));
    true
}

/// Derive one whole layer of labels from the previous layer.
fn build_layer_labels(
    cfg: &Config,
    rid: &Domain,
    prev: &Vec<Domain>,
    layer: u64,
) -> (r: Vec<Domain>)
    requires
        cfg.wf(),
        cfg.spec_num_nodes_sector() <= usize::MAX,
        2 <= layer <= cfg.spec_num_layers(),
        prev@.len() == cfg.spec_num_nodes_sector(),
        views(prev@) == layer_labels(*cfg, rid@, layer - 1),
    ensures
        r@.len() == cfg.spec_num_nodes_sector(),
        views(r@) == layer_labels(*cfg, rid@, layer as int),
        all_wf(r@),
{
    let nn = cfg.num_nodes_sector();
    let nn_us = nn as usize;
    let degree = if layer <= 1 + cfg.num_expander_layers {
        cfg.degree_expander
    } else {
        cfg.degree_butterfly
    };
    let mut r: Vec<Domain> = Vec::new();
    let mut n: usize = 0;
    while n < nn_us
        invariant
            n <= nn_us,
            nn_us == cfg.spec_num_nodes_sector(),
            nn == cfg.spec_num_nodes_sector(),
            cfg.wf(),
            2 <= layer <= cfg.spec_num_layers(),
            prev@.len() == cfg.spec_num_nodes_sector(),
            views(prev@) == layer_labels(*cfg, rid@, layer - 1),
            degree == (if layer <= 1 + cfg.num_expander_layers {
                cfg.degree_expander
            } else {
                cfg.degree_butterfly
            }),
            r@.len() == n,
            all_wf(r@),
            forall|m: int|
                0 <= m < n ==> (#[trigger] r@[m])@ == layer_labels(*cfg, rid@, layer as int)[m],
        decreases nn_us - n,
    {
        let ch = n as u64;
        let mut parents: Vec<Domain> = Vec::new();
        let mut j: u64 = 0;
        while j < degree
            invariant
                j <= degree,
                cfg.wf(),
                nn == cfg.spec_num_nodes_sector(),
                nn_us == cfg.spec_num_nodes_sector(),
                n < nn_us,
                ch == n as u64,
                prev@.len() == cfg.spec_num_nodes_sector(),
                views(prev@) == layer_labels(*cfg, rid@, layer - 1),
                parents@.len() == j,
                forall|m: int|
                    0 <= m < j ==> (#[trigger] parents@[m])@ == layer_labels(
                        *cfg,
                        rid@,
                        layer - 1,
                    )[parent_of(*cfg, layer, ch, m as u64) as int],
            decreases degree - j,
        {
            let pidx = derive_parent(cfg, layer, ch, j);
            parents.push(prev[pidx as usize].dup());
            j += 1;
        }
        proof {
            assert forall|m: int| 0 <= m < degree as int implies views(parents@)[m]
                == parent_labels(*cfg, layer, ch, degree, layer_labels(*cfg, rid@, layer - 1))[m]
                by {
                assert(views(parents@)[m] == parents@[m]@);
            }
            assert(views(parents@) =~= parent_labels(
                *cfg,
                layer,
                ch,
                degree,
                layer_labels(*cfg, rid@, layer - 1),
            ));
        }
        let label = if layer <= 1 + cfg.num_expander_layers {
            derive_expander_layer_label(rid, layer, ch, &parents)
        } else {
            derive_butterfly_layer_label(rid, layer, ch, &parents)
        };
        proof {
            assert(label@ == node_label_from_prev(
                *cfg,
                rid@,
                layer,
                n as int,
                layer_labels(*cfg, rid@, layer - 1),
            ));
            assert(layer_labels(*cfg, rid@, layer as int)[n as int] == node_label_from_prev(
                *cfg,
                rid@,
                layer,
                n as int,
                layer_labels(*cfg, rid@, layer - 1),
            ));
        }
        r.push(label);
        n += 1;
    }
    proof {
        assert forall|m: int| 0 <= m < nn_us as int implies views(r@)[m] == layer_labels(
            *cfg,
            rid@,
            layer as int,
        )[m] by {
            assert(views(r@)[m] == r@[m]@);
        }
        assert(views(r@) =~= layer_labels(*cfg, rid@, layer as int));
    }
    r
}


/// Replicate: derive every label, build the data and layer trees, fold
/// the layer roots into the replica commitment, and transform the data
/// in place into the replica. Fails exactly when the data does not match
/// the configured layout.
pub fn replicate(
    pp: &PublicParams,
    replica_id: &Domain,
    data: &mut Vec<Domain>,
    tree_arity: usize,
) -> (r: Result<(Commitments, Aux), Error>)
    requires
        pp.wf(),
        pp.config.spec_num_nodes_sector() <= usize::MAX,
        pp.config.spec_num_layers() <= usize::MAX,
    ensures
        r is Ok <==> (old(data)@.len() == pp.config.spec_num_nodes_sector() && all_wf(old(data)@)
            && tree_arity >= 2 && chunks_ok(
            pp.config.spec_num_nodes_sector(),
            tree_arity as int,
        )),
        r is Err ==> final(data)@ == old(data)@,
        r is Ok ==> {
            let tau = (r->Ok_0).0;
            let aux = (r->Ok_0).1;
            &&& aux_ok(aux, *pp, replica_id@)
            &&& aux.data_tree.leaves() == views(old(data)@)
            &&& tau.comm_d@ == aux.data_tree.root_view()
            &&& tau.comm_d@ == tree_root_of(views(old(data)@), tree_arity as int)
            &&& tau.comm_r@ == comm_r_of(aux_roots(aux))
            &&& aux_roots(aux) == layer_roots_of(pp.config, replica_id@, tree_arity as int)
            &&& tau.comm_r@ == comm_r_of(layer_roots_of(pp.config, replica_id@, tree_arity as int))
            &&& final(data)@.len() == pp.config.spec_num_nodes_sector()
            &&& forall|i: int|
                0 <= i < final(data)@.len() ==> (#[trigger] final(data)@[i])@ == xor32(
                    old(data)@[i]@,
                    layer_labels(pp.config, replica_id@, pp.config.spec_num_layers())[i],
                )
        },
{
    let cfg = &pp.config;
    let nn = cfg.num_nodes_sector();
    let nn_us = nn as usize;
    if data.len() != nn_us {
        return Err(Error::LayoutMismatch);
    }
    let mut i: usize = 0;
    while i < nn_us
        invariant
            i <= nn_us,
            data@ == old(data)@,
            nn_us == data@.len(),
            forall|m: int| 0 <= m < i ==> (#[trigger] data@[m]).wf(),
        decreases nn_us - i,
    {
        if data[i].bytes.len() != 32 {
            assert(!(data@[i as int]).wf());
            return Err(Error::LayoutMismatch);
        }
        i += 1;
    }
    assert(all_wf(data@));
    if !check_chunks(nn_us, tree_arity) {
        return Err(Error::LayoutMismatch);
    }
    // derive every layer's labels
    let nl = cfg.num_layers();
    let nl_us = nl as usize;
    let mut first: Vec<Domain> = Vec::new();
    let mut n: usize = 0;
    while n < nn_us
        invariant
            n <= nn_us,
            nn_us == cfg.spec_num_nodes_sector(),
            cfg == pp.config,
            first@.len() == n,
            all_wf(first@),
            forall|m: int|
                0 <= m < n ==> (#[trigger] first@[m])@ == first_label_of(replica_id@, m as u64),
        decreases nn_us - n,
    {
        first.push(derive_first_layer_label(replica_id, n as u64));
        n += 1;
    }
    proof {
        assert forall|m: int| 0 <= m < nn_us as int implies views(first@)[m] == layer_labels(
            pp.config,
            replica_id@,
            1,
        )[m] by {
            assert(views(first@)[m] == first@[m]@);
        }
        assert(views(first@) =~= layer_labels(pp.config, replica_id@, 1));
    }
    let mut labels: Vec<Vec<Domain>> = Vec::new();
    labels.push(first);
    let mut l: usize = 1;
    while l < nl_us
        invariant
            1 <= l <= nl_us,
            nl_us == cfg.spec_num_layers(),
            cfg == pp.config,
            pp.wf(),
            cfg.spec_num_nodes_sector() <= usize::MAX,
            labels@.len() == l,
            forall|m: int|
                0 <= m < l ==> views(#[trigger] labels@[m]@) == layer_labels(
                    pp.config,
                    replica_id@,
                    m + 1,
                ),
            forall|m: int| 0 <= m < l ==> (#[trigger] labels@[m]@).len()
                == cfg.spec_num_nodes_sector(),
            forall|m: int| 0 <= m < l ==> all_wf(#[trigger] labels@[m]@),
        decreases nl_us - l,
    {
        let prev_idx = l - 1;
        let next = build_layer_labels(cfg, replica_id, &labels[prev_idx], (l + 1) as u64);
        labels.push(next);
        l += 1;
    }
    // build the trees
    let data_tree = match MerkleTree::new(&*data, tree_arity) {
        Some(t) => t,
        None => {
            proof {
                assert(false);
            }
            return Err(Error::LayoutMismatch);
        },
    };
    let mut layer_trees: Vec<MerkleTree> = Vec::new();
    let mut l: usize = 0;
    while l < nl_us
        invariant
            l <= nl_us,
            nl_us == cfg.spec_num_layers(),
            cfg == pp.config,
            tree_arity >= 2,
            chunks_ok(cfg.spec_num_nodes_sector(), tree_arity as int),
            cfg.spec_num_nodes_sector() >= 1,
            labels@.len() == nl_us,
            forall|m: int|
                0 <= m < nl_us as int ==> views(#[trigger] labels@[m]@) == layer_labels(
                    pp.config,
                    replica_id@,
                    m + 1,
                ),
            forall|m: int| 0 <= m < nl_us as int ==> (#[trigger] labels@[m]@).len()
                == cfg.spec_num_nodes_sector(),
            forall|m: int| 0 <= m < nl_us as int ==> all_wf(#[trigger] labels@[m]@),
            layer_trees@.len() == l,
            forall|m: int|
                0 <= m < l ==> {
                    let t = #[trigger] layer_trees@[m];
                    &&& t.wf()
                    &&& t.leaf_count() == cfg.spec_num_nodes_sector()
                    &&& t.leaves() == layer_labels(pp.config, replica_id@, m + 1)
                    &&& t.root_view() == tree_root_of(
                        layer_labels(pp.config, replica_id@, m + 1),
                        tree_arity as int,
                    )
                },
        decreases nl_us - l,
    {
        let t = match MerkleTree::new(&labels[l], tree_arity) {
            Some(t) => t,
            None => {
                proof {
                    assert(false);
                }
                return Err(Error::LayoutMismatch);
            },
        };
        layer_trees.push(t);
        l += 1;
    }
    // commitments
    let comm_d = data_tree.root();
    let mut roots: Vec<Domain> = Vec::new();
    let mut l: usize = 0;
    while l < nl_us
        invariant
            l <= nl_us,
            nl_us == layer_trees@.len(),
            forall|m: int| 0 <= m < nl_us as int ==> (#[trigger] layer_trees@[m]).wf(),
            roots@.len() == l,
            forall|m: int| 0 <= m < l ==> (#[trigger] roots@[m])@ == layer_trees@[m].root_view(),
        decreases nl_us - l,
    {
        roots.push(layer_trees[l].root());
        l += 1;
    }
    let comm_r = crate::commitment::hash_md(&roots);
    // transform the data into the replica
    let last_idx = nl_us - 1;
    let mut replica: Vec<Domain> = Vec::new();
    let mut n: usize = 0;
    while n < nn_us
        invariant
            n <= nn_us,
            nn_us == cfg.spec_num_nodes_sector(),
            cfg == pp.config,
            data@ == old(data)@,
            nn_us == data@.len(),
            all_wf(data@),
            last_idx == nl_us - 1,
            nl_us == cfg.spec_num_layers(),
            labels@.len() == nl_us,
            views(labels@[last_idx as int]@) == layer_labels(
                pp.config,
                replica_id@,
                cfg.spec_num_layers(),
            ),
            labels@[last_idx as int]@.len() == cfg.spec_num_nodes_sector(),
            all_wf(labels@[last_idx as int]@),
            replica@.len() == n,
            forall|m: int|
                0 <= m < n ==> (#[trigger] replica@[m])@ == xor32(
                    old(data)@[m]@,
                    layer_labels(pp.config, replica_id@, pp.config.spec_num_layers())[m],
                ),
        decreases nn_us - n,
    {
        let key = &labels[last_idx];
        let combined = combine(&data[n], &key[n]);
        proof {
            assert(views(labels@[last_idx as int]@)[n as int] == labels@[last_idx as int]@[
                n as int]@);
        }
        replica.push(combined);
        n += 1;
    }
    *data = replica;
    let r = Ok((Commitments { comm_d, comm_r }, Aux { data_tree, layer_trees }));
    proof {
        let aux = (r->Ok_0).1;
        assert forall|m: int| 0 <= m < nl_us as int implies views(roots@)[m] == aux_roots(aux)[m]
            by {
            assert(views(roots@)[m] == roots@[m]@);
        }
        assert(views(roots@) =~= aux_roots(aux));
        assert forall|m: int| 0 <= m < nl_us as int implies aux_roots(aux)[m] == layer_roots_of(
            pp.config,
            replica_id@,
            tree_arity as int,
        )[m] by {
            assert(aux.layer_trees@[m].root_view() == tree_root_of(
                layer_labels(pp.config, replica_id@, m + 1),
                tree_arity as int,
            ));
        }
        assert(aux_roots(aux) =~= layer_roots_of(pp.config, replica_id@, tree_arity as int));
    }
    r
}

/// Check one layer proof's challenges against the derived ones.
pub fn check_lp_challenges(
    cfg: &Config,
    lp: &LayerProof,
    rid: &Domain,
    seed: &Domain,
    partition: u64,
    j: u64,
) -> (r: bool)
    requires
        cfg.wf(),
        (j + 1) * cfg.spec_num_layers() <= u64::MAX,
    ensures
        r == lp_challenges_ok(*cfg, *lp, rid@, seed@, partition, j as int),
{
    let nl = cfg.num_layers();
    let nn = cfg.num_nodes_sector();
    proof {
        assert(j * nl >= 0 && (j as int) * (nl as int) + nl <= u64::MAX) by (nonlinear_arith)
            requires
                nl >= 2,
                j >= 0,
                (j + 1) * (nl as int) <= u64::MAX,
        ;
    }
    let base = j * nl;
    if lp.expander_layer_proofs.len() as u64 != cfg.num_expander_layers {
        return false;
    }
    if lp.butterfly_layer_proofs.len() as u64 != cfg.num_butterfly_layers {
        return false;
    }
    let c0 = derive_challenge(rid, seed, partition, base, nn);
    if lp.first_layer_proof.challenge != c0 {
        return false;
    }
    let ne = lp.expander_layer_proofs.len();
    let mut i: usize = 0;
    while i < ne
        invariant
            i <= ne,
            ne == lp.expander_layer_proofs@.len(),
            ne == cfg.num_expander_layers,
            cfg.wf(),
            base == (j as int) * cfg.spec_num_layers(),
            base + nl <= u64::MAX,
            nl == cfg.spec_num_layers(),
            nn == cfg.spec_num_nodes_sector(),
            nn >= 1,
            forall|m: int|
                0 <= m < i ==> (#[trigger] lp.expander_layer_proofs@[m]).challenge == challenge_of(
                    rid@,
                    seed@,
                    partition,
                    (base + 1 + m) as u64,
                    nn as u64,
                ),
        decreases ne - i,
    {
        let c = derive_challenge(rid, seed, partition, base + 1 + (i as u64), nn);
        if lp.expander_layer_proofs[i].challenge != c {
            return false;
        }
        i += 1;
    }
    let nb = lp.butterfly_layer_proofs.len();
    let mut i: usize = 0;
    while i < nb
        invariant
            i <= nb,
            nb == lp.butterfly_layer_proofs@.len(),
            nb == cfg.num_butterfly_layers,
            ne == cfg.num_expander_layers,
            cfg.wf(),
            base == (j as int) * cfg.spec_num_layers(),
            base + nl <= u64::MAX,
            nl == cfg.spec_num_layers(),
            nn == cfg.spec_num_nodes_sector(),
            nn >= 1,
            forall|m: int|
                0 <= m < nb ==> m < i ==> (#[trigger] lp.butterfly_layer_proofs@[m]).challenge
                    == challenge_of(
                    rid@,
                    seed@,
                    partition,
                    (base + 1 + cfg.num_expander_layers + m) as u64,
                    nn as u64,
                ),
        decreases nb - i,
    {
        let c = derive_challenge(rid, seed, partition, base + 1 + (ne as u64) + (i as u64), nn);
        if lp.butterfly_layer_proofs[i].challenge != c {
            return false;
        }
        i += 1;
    }
    let cl = derive_challenge(rid, seed, partition, base + nl - 1, nn);
    if lp.last_layer_proof.challenge != cl {
        return false;
    }
    true
}

/// Verify one partition proof against the public inputs.
pub fn verify_partition(
    pp: &PublicParams,
    pub_in: &PublicInputs,
    proof: &Proof,
    partition: u64,
) -> (r: bool)
    requires
        pp.wf(),
        (pp.num_layer_challenges + 1) * pp.config.spec_num_layers() <= u64::MAX,
    ensures
        r == proof_ok(
            *pp,
            pub_in.replica_id@,
            pub_in.seed@,
            pub_in.tau.comm_d@,
            pub_in.tau.comm_r@,
            *proof,
            partition,
        ),
{
    let cfg = &pp.config;
    let nl = cfg.num_layers();
    if proof.comm_layers.len() as u64 != nl {
        return false;
    }
    let md = crate::commitment::hash_md(&proof.comm_layers);
    if !pub_in.tau.comm_r.eq_value(&md) {
        return false;
    }
    if proof.layer_proofs.len() as u64 != pp.num_layer_challenges {
        return false;
    }
    let np = proof.layer_proofs.len();
    let mut j: usize = 0;
    while j < np
        invariant
            j <= np,
            np == proof.layer_proofs@.len(),
            np == pp.num_layer_challenges,
            pp.wf(),
            (pp.num_layer_challenges + 1) * pp.config.spec_num_layers() <= u64::MAX,
            cfg == pp.config,
            proof.comm_layers@.len() == pp.config.spec_num_layers(),
            forall|m: int|
                0 <= m < j ==> layer_proof_ok(
                    pp.config,
                    pub_in.replica_id@,
                    pub_in.tau.comm_d@,
                    views(proof.comm_layers@),
                    #[trigger] proof.layer_proofs@[m],
                ),
            forall|m: int|
                0 <= m < j ==> lp_challenges_ok(
                    pp.config,
                    #[trigger] proof.layer_proofs@[m],
                    pub_in.replica_id@,
                    pub_in.seed@,
                    partition,
                    m,
                ),
        decreases np - j,
    {
        let lp = &proof.layer_proofs[j];
        proof {
            assert((j as int + 1) * pp.config.spec_num_layers() <= (
            pp.num_layer_challenges as int + 1) * pp.config.spec_num_layers())
                by (nonlinear_arith)
                requires
                    0 <= j as int,
                    (j as int) < pp.num_layer_challenges as int,
                    pp.config.spec_num_layers() >= 2,
            ;
        }
        if !check_lp_challenges(cfg, lp, &pub_in.replica_id, &pub_in.seed, partition, j as u64) {
            return false;
        }
        if !verify_layer_proof(
            cfg,
            &pub_in.replica_id,
            &pub_in.tau.comm_d,
            &proof.comm_layers,
            lp,
        ) {
            return false;
        }
        j += 1;
    }
    true
}

/// Verify every partition proof; a failed check is a false result, not an
/// error.
pub fn verify_all_partitions(pp: &PublicParams, pub_in: &PublicInputs, proofs: &Vec<Proof>) -> (r:
    bool)
    requires
        pp.wf(),
        (pp.num_layer_challenges + 1) * pp.config.spec_num_layers() <= u64::MAX,
        proofs@.len() <= u64::MAX,
    ensures
        r == all_proofs_ok(
            *pp,
            pub_in.replica_id@,
            pub_in.seed@,
            pub_in.tau.comm_d@,
            pub_in.tau.comm_r@,
            proofs@,
        ),
{
    let n = proofs.len();
    let mut k: usize = 0;
    while k < n
        invariant
            k <= n,
            n == proofs@.len(),
            pp.wf(),
            (pp.num_layer_challenges + 1) * pp.config.spec_num_layers() <= u64::MAX,
            n <= u64::MAX,
            forall|m: int|
                0 <= m < k ==> proof_ok(
                    *pp,
                    pub_in.replica_id@,
                    pub_in.seed@,
                    pub_in.tau.comm_d@,
                    pub_in.tau.comm_r@,
                    #[trigger] proofs@[m],
                    m as u64,
                ),
        decreases n - k,
    {
        if !verify_partition(pp, pub_in, &proofs[k], k as u64) {
            return false;
        }
        k += 1;
    }
    true
}


/// Open one challenged node of one layer: openings against the data tree,
/// the layer tree, and (for parent-bearing layers) the previous layer's
/// tree for every derived parent.
fn open_node(
    aux: &Aux,
    pp: &PublicParams,
    Ghost(rid): Ghost<Seq<u8>>,
    layer: u64,
    ch: u64,
    degree: u64,
) -> (np: NodeProof)
    requires
        pp.wf(),
        aux_ok(*aux, *pp, rid),
        pp.config.spec_num_nodes_sector() <= usize::MAX,
        pp.config.spec_num_layers() <= usize::MAX,
        1 <= layer <= pp.config.spec_num_layers(),
        ch < pp.config.spec_num_nodes_sector(),
        layer == 1 ==> degree == 0,
    ensures
        np.challenge == ch,
        path_in_bounds(np.data_path@),
        path_in_bounds(np.layer_path@),
        forall|j: int|
            0 <= j < np.parents@.len() ==> path_in_bounds((#[trigger] np.parents@[j]).path@),
        np.data_leaf@ == aux.data_tree.leaves()[ch as int],
        node_ok(
            np,
            aux.data_tree.root_view(),
            aux.layer_trees@[layer - 1].root_view(),
            layer_labels(pp.config, rid, layer as int)[ch as int],
            pp.config.spec_num_nodes_sector(),
        ),
        layer >= 2 ==> parents_ok(
            np,
            pp.config,
            layer,
            degree,
            aux.layer_trees@[layer - 2].root_view(),
        ),
        layer >= 2 ==> parent_values(np) == parent_labels(
            pp.config,
            layer,
            ch,
            degree,
            layer_labels(pp.config, rid, layer - 1),
        ),
        np.parents@.len() == degree,
{
    let cfg = &pp.config;
    let idx = ch as usize;
    let data_path = aux.data_tree.prove_leaf(idx);
    let data_leaf = aux.data_tree.levels[0][idx].dup();
    let layer_idx = (layer - 1) as usize;
    let layer_path = aux.layer_trees[layer_idx].prove_leaf(idx);
    proof {
        assert(aux.data_tree.leaves()[ch as int] == aux.data_tree.levels@[0]@[ch as int]@);
        assert forall|i: int| 0 <= i < data_path@.len() implies crate::merkle::elem_in_bounds(
            #[trigger] data_path@[i],
        ) by {
            assert(crate::merkle::elem_wf(data_path@[i], aux.data_tree.arity as int));
        }
        assert forall|i: int| 0 <= i < layer_path@.len() implies crate::merkle::elem_in_bounds(
            #[trigger] layer_path@[i],
        ) by {
            assert(crate::merkle::elem_wf(
                layer_path@[i],
                aux.layer_trees@[layer_idx as int].arity as int,
            ));
        }
        assert(aux.layer_trees@[layer_idx as int].leaves()[ch as int] == layer_labels(
            pp.config,
            rid,
            layer as int,
        )[ch as int]);
    }
    let mut parents: Vec<ParentOpening> = Vec::new();
    if layer >= 2 {
        let prev_idx = (layer - 2) as usize;
        let mut j: u64 = 0;
        while j < degree
            invariant
                j <= degree,
                pp.wf(),
                aux_ok(*aux, *pp, rid),
                pp.config.spec_num_nodes_sector() <= usize::MAX,
                2 <= layer <= pp.config.spec_num_layers(),
                prev_idx == layer - 2,
                ch < pp.config.spec_num_nodes_sector(),
                parents@.len() == j,
                forall|m: int|
                    0 <= m < j ==> {
                        let po = #[trigger] parents@[m];
                        &&& po.index == parent_of(pp.config, layer, ch, m as u64)
                        &&& path_in_bounds(po.path@)
                        &&& crate::merkle::fold_path(po.value@, po.path@)
                            == aux.layer_trees@[layer - 2].root_view()
                        &&& po.value@ == layer_labels(pp.config, rid, layer - 1)[po.index as int]
                    },
            decreases degree - j,
        {
            let pidx = derive_parent(&pp.config, layer, ch, j);
            let pus = pidx as usize;
            let value = aux.layer_trees[prev_idx].levels[0][pus].dup();
            let path = aux.layer_trees[prev_idx].prove_leaf(pus);
            proof {
                assert(aux.layer_trees@[prev_idx as int].leaves()[pidx as int]
                    == aux.layer_trees@[prev_idx as int].levels@[0]@[pidx as int]@);
                assert forall|i: int| 0 <= i < path@.len() implies crate::merkle::elem_in_bounds(
                    #[trigger] path@[i],
                ) by {
                    assert(crate::merkle::elem_wf(
                        path@[i],
                        aux.layer_trees@[prev_idx as int].arity as int,
                    ));
                }
            }
            parents.push(ParentOpening { index: pidx, value, path });
            j += 1;
        }
    }
    let np = NodeProof { challenge: ch, data_leaf, data_path, layer_path, parents };
    proof {
        if layer >= 2 {
            assert forall|m: int| 0 <= m < degree as int implies parent_values(np)[m]
                == parent_labels(
                pp.config,
                layer,
                ch,
                degree,
                layer_labels(pp.config, rid, layer - 1),
            )[m] by {
                assert(parent_values(np)[m] == np.parents@[m].value@);
            }
            assert(parent_values(np) =~= parent_labels(
                pp.config,
                layer,
                ch,
                degree,
                layer_labels(pp.config, rid, layer - 1),
            ));
        }
    }
    np
}

/// Build one layer proof for one challenge counter block.
fn build_layer_proof(
    pp: &PublicParams,
    pub_in: &PublicInputs,
    aux: &Aux,
    partition: u64,
    j: u64,
) -> (lp: LayerProof)
    requires
        pp.wf(),
        aux_ok(*aux, *pp, pub_in.replica_id@),
        pub_in.tau.comm_d@ == aux.data_tree.root_view(),
        pp.config.spec_num_nodes_sector() <= usize::MAX,
        pp.config.spec_num_layers() <= usize::MAX,
        (j + 1) * pp.config.spec_num_layers() <= u64::MAX,
    ensures
        lp_challenges_ok(pp.config, lp, pub_in.replica_id@, pub_in.seed@, partition, j as int),
        layer_proof_ok(
            pp.config,
            pub_in.replica_id@,
            pub_in.tau.comm_d@,
            aux_roots(*aux),
            lp,
        ),
{
    let cfg = &pp.config;
    let ghost rid = pub_in.replica_id@;
    let nl = cfg.num_layers();
    let nn = cfg.num_nodes_sector();
    proof {
        assert(j * nl >= 0 && (j as int) * (nl as int) + nl <= u64::MAX) by (nonlinear_arith)
            requires
                nl >= 2,
                j >= 0,
                (j + 1) * (nl as int) <= u64::MAX,
        ;
        assert(aux_roots(*aux).len() == cfg.spec_num_layers());
    }
    let base = j * nl;
    // first layer
    let c0 = derive_challenge(&pub_in.replica_id, &pub_in.seed, partition, base, nn);
    let first_layer_proof = open_node(aux, pp, Ghost(rid), 1, c0, 0);
    proof {
        assert(layer_labels(pp.config, rid, 1)[c0 as int] == first_label_of(rid, c0));
        assert(aux_roots(*aux)[0] == aux.layer_trees@[0].root_view());
    }
    // expander layers
    let ne = cfg.num_expander_layers as usize;
    let mut expander_layer_proofs: Vec<NodeProof> = Vec::new();
    let mut i: usize = 0;
    while i < ne
        invariant
            i <= ne,
            ne == cfg.num_expander_layers,
            cfg == pp.config,
            pp.wf(),
            aux_ok(*aux, *pp, rid),
            rid == pub_in.replica_id@,
            pub_in.tau.comm_d@ == aux.data_tree.root_view(),
            pp.config.spec_num_nodes_sector() <= usize::MAX,
            pp.config.spec_num_layers() <= usize::MAX,
            nl == cfg.spec_num_layers(),
            nn == cfg.spec_num_nodes_sector(),
            nn >= 1,
            base == (j as int) * (nl as int),
            base + nl <= u64::MAX,
            expander_layer_proofs@.len() == i,
            forall|m: int|
                0 <= m < i ==> (#[trigger] expander_layer_proofs@[m]).challenge == challenge_of(
                    rid,
                    pub_in.seed@,
                    partition,
                    (base + 1 + m) as u64,
                    nn as u64,
                ),
            forall|m: int|
                0 <= m < i ==> expander_proof_ok(
                    pp.config,
                    rid,
                    pub_in.tau.comm_d@,
                    aux_roots(*aux),
                    #[trigger] expander_layer_proofs@[m],
                    m,
                ),
        decreases ne - i,
    {
        let layer = (i as u64) + 2;
        let ch = derive_challenge(
            &pub_in.replica_id,
            &pub_in.seed,
            partition,
            base + 1 + (i as u64),
            nn,
        );
        let np = open_node(aux, pp, Ghost(rid), layer, ch, cfg.degree_expander);
        proof {
            assert(layer_labels(pp.config, rid, layer as int)[ch as int]
                == node_label_from_prev(
                pp.config,
                rid,
                layer,
                ch as int,
                layer_labels(pp.config, rid, layer - 1),
            ));
            assert(aux_roots(*aux)[layer - 1] == aux.layer_trees@[layer - 1].root_view());
            assert(aux_roots(*aux)[layer - 2] == aux.layer_trees@[layer - 2].root_view());
            assert(expander_proof_ok(
                pp.config,
                rid,
                pub_in.tau.comm_d@,
                aux_roots(*aux),
                np,
                i as int,
            ));
        }
        expander_layer_proofs.push(np);
        i += 1;
    }
    // butterfly layers
    let nb = cfg.num_butterfly_layers as usize;
    let mut butterfly_layer_proofs: Vec<NodeProof> = Vec::new();
    let mut i: usize = 0;
    while i < nb
        invariant
            i <= nb,
            nb == cfg.num_butterfly_layers,
            ne == cfg.num_expander_layers,
            cfg == pp.config,
            pp.wf(),
            aux_ok(*aux, *pp, rid),
            rid == pub_in.replica_id@,
            pub_in.tau.comm_d@ == aux.data_tree.root_view(),
            pp.config.spec_num_nodes_sector() <= usize::MAX,
            pp.config.spec_num_layers() <= usize::MAX,
            nl == cfg.spec_num_layers(),
            nn == cfg.spec_num_nodes_sector(),
            nn >= 1,
            base == (j as int) * (nl as int),
            base + nl <= u64::MAX,
            butterfly_layer_proofs@.len() == i,
            forall|m: int|
                0 <= m < i ==> (#[trigger] butterfly_layer_proofs@[m]).challenge == challenge_of(
                    rid,
                    pub_in.seed@,
                    partition,
                    (base + 1 + cfg.num_expander_layers + m) as u64,
                    nn as u64,
                ),
            forall|m: int|
                0 <= m < i ==> butterfly_proof_ok(
                    pp.config,
                    rid,
                    pub_in.tau.comm_d@,
                    aux_roots(*aux),
                    #[trigger] butterfly_layer_proofs@[m],
                    (ne + 2 + m) as u64,
                ),
        decreases nb - i,
    {
        let layer = (ne as u64) + 2 + (i as u64);
        let ch = derive_challenge(
            &pub_in.replica_id,
            &pub_in.seed,
            partition,
            base + 1 + (ne as u64) + (i as u64),
            nn,
        );
        let np = open_node(aux, pp, Ghost(rid), layer, ch, cfg.degree_butterfly);
        proof {
            assert(layer > 1 + cfg.num_expander_layers);
            assert(layer_labels(pp.config, rid, layer as int)[ch as int]
                == node_label_from_prev(
                pp.config,
                rid,
                layer,
                ch as int,
                layer_labels(pp.config, rid, layer - 1),
            ));
            assert(aux_roots(*aux)[layer - 1] == aux.layer_trees@[layer - 1].root_view());
            assert(aux_roots(*aux)[layer - 2] == aux.layer_trees@[layer - 2].root_view());
            assert(butterfly_proof_ok(
                pp.config,
                rid,
                pub_in.tau.comm_d@,
                aux_roots(*aux),
                np,
                layer,
            ));
        }
        butterfly_layer_proofs.push(np);
        i += 1;
    }
    // last layer
    let last_layer = nl;
    let cl = derive_challenge(&pub_in.replica_id, &pub_in.seed, partition, base + nl - 1, nn);
    let last_layer_proof = open_node(aux, pp, Ghost(rid), last_layer, cl, cfg.degree_butterfly);
    proof {
        assert(last_layer > 1 + cfg.num_expander_layers);
        assert(layer_labels(pp.config, rid, last_layer as int)[cl as int]
            == node_label_from_prev(
            pp.config,
            rid,
            last_layer,
            cl as int,
            layer_labels(pp.config, rid, last_layer - 1),
        ));
        assert(aux_roots(*aux)[last_layer - 1] == aux.layer_trees@[last_layer - 1].root_view());
        assert(aux_roots(*aux)[last_layer - 2] == aux.layer_trees@[last_layer - 2].root_view());
        assert(butterfly_proof_ok(
            pp.config,
            rid,
            pub_in.tau.comm_d@,
            aux_roots(*aux),
            last_layer_proof,
            last_layer,
        ));
    }
    LayerProof {
        first_layer_proof,
        expander_layer_proofs,
        butterfly_layer_proofs,
        last_layer_proof,
    }
}

/// Assemble every partition's proof; each verifies by construction.
pub fn prove_all_partitions(
    pp: &PublicParams,
    pub_in: &PublicInputs,
    aux: &Aux,
    partition_count: u64,
) -> (r: Vec<Proof>)
    requires
        pp.wf(),
        aux_ok(*aux, *pp, pub_in.replica_id@),
        pub_in.tau.comm_d@ == aux.data_tree.root_view(),
        pub_in.tau.comm_r@ == comm_r_of(aux_roots(*aux)),
        pp.config.spec_num_nodes_sector() <= usize::MAX,
        pp.config.spec_num_layers() <= usize::MAX,
        partition_count <= usize::MAX,
        pp.num_layer_challenges <= usize::MAX,
        (pp.num_layer_challenges + 1) * pp.config.spec_num_layers() <= u64::MAX,
    ensures
        r@.len() == partition_count,
        all_proofs_ok(
            *pp,
            pub_in.replica_id@,
            pub_in.seed@,
            pub_in.tau.comm_d@,
            pub_in.tau.comm_r@,
            r@,
        ),
{
    let nl_us = pp.config.num_layers() as usize;
    let nc = pp.num_layer_challenges as usize;
    let mut r: Vec<Proof> = Vec::new();
    let mut k: u64 = 0;
    while k < partition_count
        invariant
            k <= partition_count,
            pp.wf(),
            aux_ok(*aux, *pp, pub_in.replica_id@),
            pub_in.tau.comm_d@ == aux.data_tree.root_view(),
            pub_in.tau.comm_r@ == comm_r_of(aux_roots(*aux)),
            pp.config.spec_num_nodes_sector() <= usize::MAX,
            pp.config.spec_num_layers() <= usize::MAX,
            partition_count <= usize::MAX,
            nc == pp.num_layer_challenges,
            nl_us == pp.config.spec_num_layers(),
            (pp.num_layer_challenges + 1) * pp.config.spec_num_layers() <= u64::MAX,
            r@.len() == k,
            forall|m: int|
                0 <= m < k ==> proof_ok(
                    *pp,
                    pub_in.replica_id@,
                    pub_in.seed@,
                    pub_in.tau.comm_d@,
                    pub_in.tau.comm_r@,
                    #[trigger] r@[m],
                    m as u64,
                ),
        decreases partition_count - k,
    {
        // the layer roots this proof commits to
        let mut comm_layers: Vec<Domain> = Vec::new();
        let mut l: usize = 0;
        while l < nl_us
            invariant
                l <= nl_us,
                nl_us == aux.layer_trees@.len(),
                forall|m: int| 0 <= m < nl_us as int ==> (#[trigger] aux.layer_trees@[m]).wf(),
                comm_layers@.len() == l,
                forall|m: int|
                    0 <= m < l ==> (#[trigger] comm_layers@[m])@
                        == aux.layer_trees@[m].root_view(),
            decreases nl_us - l,
        {
            comm_layers.push(aux.layer_trees[l].root());
            l += 1;
        }
        proof {
            assert forall|m: int| 0 <= m < nl_us as int implies views(comm_layers@)[m]
                == aux_roots(*aux)[m] by {
                assert(views(comm_layers@)[m] == comm_layers@[m]@);
            }
            assert(views(comm_layers@) =~= aux_roots(*aux));
        }
        let mut layer_proofs: Vec<LayerProof> = Vec::new();
        let mut j: usize = 0;
        while j < nc
            invariant
                j <= nc,
                nc == pp.num_layer_challenges,
                pp.wf(),
                aux_ok(*aux, *pp, pub_in.replica_id@),
                pub_in.tau.comm_d@ == aux.data_tree.root_view(),
                pp.config.spec_num_nodes_sector() <= usize::MAX,
                pp.config.spec_num_layers() <= usize::MAX,
                (pp.num_layer_challenges + 1) * pp.config.spec_num_layers() <= u64::MAX,
                layer_proofs@.len() == j,
                forall|m: int|
                    0 <= m < j ==> lp_challenges_ok(
                        pp.config,
                        #[trigger] layer_proofs@[m],
                        pub_in.replica_id@,
                        pub_in.seed@,
                        k,
                        m,
                    ),
                forall|m: int|
                    0 <= m < j ==> layer_proof_ok(
                        pp.config,
                        pub_in.replica_id@,
                        pub_in.tau.comm_d@,
                        aux_roots(*aux),
                        #[trigger] layer_proofs@[m],
                    ),
            decreases nc - j,
        {
            proof {
                assert((j as int + 1) * pp.config.spec_num_layers() <= (
                pp.num_layer_challenges as int + 1) * pp.config.spec_num_layers())
                    by (nonlinear_arith)
                    requires
                        0 <= j as int,
                        (j as int) < pp.num_layer_challenges as int,
                        pp.config.spec_num_layers() >= 2,
                ;
            }
            let lp = build_layer_proof(pp, pub_in, aux, k, j as u64);
            layer_proofs.push(lp);
            j += 1;
        }
        let proof_k = Proof { comm_layers, layer_proofs };
        proof {
            assert(proof_ok(
                *pp,
                pub_in.replica_id@,
                pub_in.seed@,
                pub_in.tau.comm_d@,
                pub_in.tau.comm_r@,
                proof_k,
                k,
            ));
        }
        r.push(proof_k);
        k += 1;
    }
    r
}



/// Round trip: replicate the data, prove every partition, verify them
/// all, and return the verification outcome together with the proofs.
/// The contract pins the whole pipeline: the data is transformed in
/// place into the replica, the returned proofs check against the
/// commitments the data and identity determine, and the outcome is true
/// — the law that proving and verifying agree, stated over the
/// executable pipeline itself.
pub fn round_trip(
    pp: &PublicParams,
    replica_id: &Domain,
    seed: &Domain,
    data: &mut Vec<Domain>,
    tree_arity: usize,
    partition_count: u64,
) -> (r: Result<(bool, Vec<Proof>), Error>)
    requires
        pp.wf(),
        pp.config.spec_num_nodes_sector() <= usize::MAX,
        pp.config.spec_num_layers() <= usize::MAX,
        partition_count <= usize::MAX,
        pp.num_layer_challenges <= usize::MAX,
        (pp.num_layer_challenges + 1) * pp.config.spec_num_layers() <= u64::MAX,
    ensures
        r is Ok <==> (old(data)@.len() == pp.config.spec_num_nodes_sector() && all_wf(old(data)@)
            && tree_arity >= 2 && chunks_ok(
            pp.config.spec_num_nodes_sector(),
            tree_arity as int,
        )),
        r is Err ==> final(data)@ == old(data)@,
        r is Ok ==> final(data)@.len() == pp.config.spec_num_nodes_sector(),
        r is Ok ==> forall|i: int|
            0 <= i < final(data)@.len() ==> (#[trigger] final(data)@[i])@ == xor32(
                old(data)@[i]@,
                layer_labels(pp.config, replica_id@, pp.config.spec_num_layers())[i],
            ),
        r is Ok ==> (r->Ok_0).1@.len() == partition_count,
        r is Ok ==> all_proofs_ok(
            *pp,
            replica_id@,
            seed@,
            tree_root_of(views(old(data)@), tree_arity as int),
            comm_r_of(layer_roots_of(pp.config, replica_id@, tree_arity as int)),
            (r->Ok_0).1@,
        ),
        r is Ok ==> (r->Ok_0).0 == true,
{
    let (tau, aux) = match replicate(pp, replica_id, data, tree_arity) {
        Ok(out) => out,
        Err(e) => {
            return Err(e);
        },
    };
    let pub_in = PublicInputs {
        replica_id: replica_id.dup(),
        seed: seed.dup(),
        tau: Commitments { comm_d: tau.comm_d, comm_r: tau.comm_r },
        k: None,
    };
    let proofs = prove_all_partitions(pp, &pub_in, &aux, partition_count);
    let ok = verify_all_partitions(pp, &pub_in, &proofs);
    Ok((ok, proofs))
}

/// Tamper detection, native side: a proof with a layer proof that fails
/// any check, or whose layer roots do not fold to the replica commitment,
/// does not verify.
pub proof fn lemma_tampered_proof_fails(
    pp: PublicParams,
    rid: Seq<u8>,
    seed: Seq<u8>,
    comm_d: Seq<u8>,
    comm_r: Seq<u8>,
    proof: Proof,
    partition: u64,
    j: int,
)
    requires
        0 <= j < proof.layer_proofs@.len(),
        !layer_proof_ok(
            pp.config,
            rid,
            comm_d,
            views(proof.comm_layers@),
            proof.layer_proofs@[j],
        ) || comm_r != comm_r_of(views(proof.comm_layers@)),
    ensures
        !proof_ok(pp, rid, seed, comm_d, comm_r, proof, partition),
{
}

} // verus!
