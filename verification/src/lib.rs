//! Narrow Stacked Expander proof-of-replication: layer-proof data model and
//! its arithmetization.
//!
//! The library models a layered hash-graph replication scheme: a `Config`
//! describes the window/layer topology, labels are derived per node and per
//! layer class, Merkle trees commit to each layer, and a constraint-system
//! model re-derives every label and inclusion check so that satisfiability
//! of the synthesized system coincides with native verification.
use vstd::prelude::*;

pub mod challenges;
pub mod circuit;
pub mod commitment;
pub mod hashing;
pub mod labels;
pub mod merkle;
pub mod proofs;
pub mod scheme;

use crate::hashing::Domain;

verus! {

/// Parameters handed to setup.
pub struct SetupParams {
    /// The graph configuration.
    pub config: Config,
    /// How many layer challenges each partition opens.
    pub num_layer_challenges: u64,
}

/// Public parameters: the checked configuration and the challenge count.
#[derive(Clone, Copy, Debug, PartialEq, Eq, Structural)]
pub struct PublicParams {
    /// The graph configuration.
    pub config: Config,
    /// How many layer challenges each partition opens.
    pub num_layer_challenges: u64,
}

impl PublicParams {
    /// Well-formed public parameters: a valid configuration, at least one
    /// challenge, and a challenge tally that fits the machine word.
    pub open spec fn wf(self) -> bool {
        &&& self.config.wf()
        &&& 1 <= self.num_layer_challenges
        &&& self.num_layer_challenges * self.config.spec_num_layers() <= u64::MAX
    }
}

/// The commitments replication produces: the data root and the replica
/// commitment.
pub struct Commitments {
    /// Root of the original-data tree.
    pub comm_d: Domain,
    /// The replica commitment binding the layer roots.
    pub comm_r: Domain,
}

/// The public inputs of a proof.
pub struct PublicInputs {
    /// The replica identity.
    pub replica_id: Domain,
    /// The challenge-derivation randomness.
    pub seed: Domain,
    /// The commitment pair.
    pub tau: Commitments,
    /// The partition index, if one partition is singled out.
    pub k: Option<u64>,
}

/// Static graph configuration: window count, nodes per window, parent
/// degrees, and layer counts for the two middle layer classes.
#[derive(Clone, Copy, Debug, PartialEq, Eq, Structural)]
pub struct Config {
    /// Number of windows.
    pub k: u64,
    /// Number of nodes in each window.
    pub num_nodes_window: u64,
    /// Number of parents of an expander-layer node.
    pub degree_expander: u64,
    /// Number of parents of a butterfly-layer node.
    pub degree_butterfly: u64,
    /// Number of expander layers.
    pub num_expander_layers: u64,
    /// Number of butterfly layers.
    pub num_butterfly_layers: u64,
    /// Sector size in bytes.
    pub sector_size: u64,
}

impl Config {
    /// A configuration is well formed when the window counts and parent
    /// degrees are positive (the expander and butterfly layer counts may
    /// be zero: the first and last layers alone already make two), the
    /// derived quantities fit in the machine word, and the sector size
    /// equals the node count times the node size.
    pub open spec fn wf(self) -> bool {
        &&& 1 <= self.k
        &&& 1 <= self.num_nodes_window
        &&& 1 <= self.degree_expander
        &&& 1 <= self.degree_butterfly
        &&& self.k * self.num_nodes_window <= u64::MAX
        &&& self.num_expander_layers + self.num_butterfly_layers + 2 <= u64::MAX
        &&& self.sector_size == self.k * self.num_nodes_window * 32
    }

    /// Total number of nodes in the sector.
    pub open spec fn spec_num_nodes_sector(self) -> int {
        self.k * self.num_nodes_window
    }

    /// Total number of layers: the first layer, the expander layers, the
    /// butterfly layers, and the last layer.
    pub open spec fn spec_num_layers(self) -> int {
        self.num_expander_layers + self.num_butterfly_layers + 2
    }

    /// Total number of nodes in the sector.
    pub fn num_nodes_sector(&self) -> (r: u64)
        requires
            self.wf(),
        ensures
            r == self.spec_num_nodes_sector(),
            r >= 1,
    {
        proof {
            assert(self.k * self.num_nodes_window >= 1) by (nonlinear_arith)
                requires
                    self.k >= 1,
                    self.num_nodes_window >= 1,
            ;
        }
        self.k * self.num_nodes_window
    }

    /// Total number of layers.
    pub fn num_layers(&self) -> (r: u64)
        requires
            self.wf(),
        ensures
            r == self.spec_num_layers(),
            r >= 2,
    {
        self.num_expander_layers + self.num_butterfly_layers + 2
    }

    /// Whether the configuration is well formed.
    pub fn is_valid(&self) -> (r: bool)
        ensures
            r == self.wf(),
    {
        if self.k < 1
            || self.num_nodes_window < 1
            || self.degree_expander < 1
            || self.degree_butterfly < 1
        {
            return false;
        }
        if self.num_butterfly_layers > u64::MAX - 2
            || self.num_expander_layers > u64::MAX - 2 - self.num_butterfly_layers {
            return false;
        }
        let nodes = match self.k.checked_mul(self.num_nodes_window) {
            Some(n) => n,
            None => {
                return false;
            },
        };
        match nodes.checked_mul(32) {
            Some(bytes) => self.sector_size == bytes,
            None => false,
        }
    }
}

} // verus!
