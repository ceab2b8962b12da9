use nse_porep::hashing::Domain;
use nse_porep::scheme::{setup, replicate, prove_all_partitions, verify_all_partitions, Error};
use nse_porep::{Config, Commitments, PublicInputs, SetupParams};

fn test_config() -> Config {
    Config {
        k: 4,
        num_nodes_window: 8,
        degree_expander: 6,
        degree_butterfly: 4,
        num_expander_layers: 3,
        num_butterfly_layers: 2,
        sector_size: 32 * 32,
    }
}

fn dom(b: u8) -> Domain {
    Domain::from_bytes(vec![b; 32]).unwrap()
}

fn sector_data() -> Vec<Domain> {
    let mut data = Vec::new();
    for i in 0..32u8 {
        data.push(dom(i));
    }
    data
}

#[test]
fn config_derived_quantities() {
    let cfg = test_config();
    assert!(cfg.is_valid());
    assert_eq!(cfg.num_nodes_sector(), 32);
    assert_eq!(cfg.num_layers(), 7);
}

#[test]
fn config_rejects_bad_sector_size() {
    let mut cfg = test_config();
    cfg.sector_size = 100;
    assert!(!cfg.is_valid());
}

#[test]
fn setup_rejects_invalid_config() {
    let mut cfg = test_config();
    cfg.k = 0;
    let r = setup(&SetupParams { config: cfg, num_layer_challenges: 2 });
    assert_eq!(r.err().unwrap(), Error::InvalidConfig);
    let r2 = setup(&SetupParams { config: test_config(), num_layer_challenges: 0 });
    assert_eq!(r2.err().unwrap(), Error::InvalidConfig);
    assert!(setup(&SetupParams { config: test_config(), num_layer_challenges: 2 }).is_ok());
}

#[test]
fn replication_round_trip_verifies() {
    let pp = setup(&SetupParams { config: test_config(), num_layer_challenges: 2 }).unwrap();
    let replica_id = dom(7);
    let mut data = sector_data();
    let original_first = data[0].bytes.clone();
    let (tau, aux) = replicate(&pp, &replica_id, &mut data, 2).unwrap();
    assert_ne!(data[0].bytes, original_first, "replication did not change data");
    let pub_in = PublicInputs {
        replica_id: replica_id.dup(),
        seed: dom(99),
        tau: Commitments { comm_d: tau.comm_d.dup(), comm_r: tau.comm_r.dup() },
        k: None,
    };
    let proofs = prove_all_partitions(&pp, &pub_in, &aux, 2);
    assert_eq!(proofs.len(), 2);
    assert!(verify_all_partitions(&pp, &pub_in, &proofs));
}

#[test]
fn tampered_leaf_fails_verification() {
    let pp = setup(&SetupParams { config: test_config(), num_layer_challenges: 2 }).unwrap();
    let replica_id = dom(7);
    let mut data = sector_data();
    let (tau, aux) = replicate(&pp, &replica_id, &mut data, 2).unwrap();
    let pub_in = PublicInputs {
        replica_id: replica_id.dup(),
        seed: dom(99),
        tau: Commitments { comm_d: tau.comm_d.dup(), comm_r: tau.comm_r.dup() },
        k: None,
    };
    let mut proofs = prove_all_partitions(&pp, &pub_in, &aux, 1);
    // flip one bit of one data leaf
    proofs[0].layer_proofs[0].first_layer_proof.data_leaf.bytes[0] ^= 1;
    assert!(!verify_all_partitions(&pp, &pub_in, &proofs));
}

#[test]
fn tampered_parent_value_fails_verification() {
    let pp = setup(&SetupParams { config: test_config(), num_layer_challenges: 2 }).unwrap();
    let replica_id = dom(7);
    let mut data = sector_data();
    let (tau, aux) = replicate(&pp, &replica_id, &mut data, 2).unwrap();
    let pub_in = PublicInputs {
        replica_id: replica_id.dup(),
        seed: dom(99),
        tau: Commitments { comm_d: tau.comm_d.dup(), comm_r: tau.comm_r.dup() },
        k: None,
    };
    let mut proofs = prove_all_partitions(&pp, &pub_in, &aux, 1);
    // flip one bit of one declared parent label
    proofs[0].layer_proofs[0].expander_layer_proofs[1].parents[2].value.bytes[5] ^= 0x10;
    assert!(!verify_all_partitions(&pp, &pub_in, &proofs));
}

#[test]
fn tampered_layer_root_fails_verification() {
    let pp = setup(&SetupParams { config: test_config(), num_layer_challenges: 2 }).unwrap();
    let replica_id = dom(7);
    let mut data = sector_data();
    let (tau, aux) = replicate(&pp, &replica_id, &mut data, 2).unwrap();
    let pub_in = PublicInputs {
        replica_id: replica_id.dup(),
        seed: dom(99),
        tau: Commitments { comm_d: tau.comm_d.dup(), comm_r: tau.comm_r.dup() },
        k: None,
    };
    let mut proofs = prove_all_partitions(&pp, &pub_in, &aux, 1);
    proofs[0].comm_layers[3].bytes[31] ^= 0x80;
    assert!(!verify_all_partitions(&pp, &pub_in, &proofs));
}

#[test]
fn tampered_challenge_fails_verification() {
    let pp = setup(&SetupParams { config: test_config(), num_layer_challenges: 2 }).unwrap();
    let replica_id = dom(7);
    let mut data = sector_data();
    let (tau, aux) = replicate(&pp, &replica_id, &mut data, 2).unwrap();
    let pub_in = PublicInputs {
        replica_id: replica_id.dup(),
        seed: dom(99),
        tau: Commitments { comm_d: tau.comm_d.dup(), comm_r: tau.comm_r.dup() },
        k: None,
    };
    let mut proofs = prove_all_partitions(&pp, &pub_in, &aux, 1);
    let ch = proofs[0].layer_proofs[1].last_layer_proof.challenge;
    proofs[0].layer_proofs[1].last_layer_proof.challenge = (ch + 1) % 32;
    assert!(!verify_all_partitions(&pp, &pub_in, &proofs));
}

#[test]
fn wrong_seed_fails_verification() {
    let pp = setup(&SetupParams { config: test_config(), num_layer_challenges: 2 }).unwrap();
    let replica_id = dom(7);
    let mut data = sector_data();
    let (tau, aux) = replicate(&pp, &replica_id, &mut data, 2).unwrap();
    let pub_in = PublicInputs {
        replica_id: replica_id.dup(),
        seed: dom(99),
        tau: Commitments { comm_d: tau.comm_d.dup(), comm_r: tau.comm_r.dup() },
        k: None,
    };
    let proofs = prove_all_partitions(&pp, &pub_in, &aux, 1);
    let other = PublicInputs {
        replica_id: replica_id.dup(),
        seed: dom(98),
        tau: Commitments { comm_d: tau.comm_d.dup(), comm_r: tau.comm_r.dup() },
        k: None,
    };
    assert!(!verify_all_partitions(&pp, &other, &proofs));
}

#[test]
fn round_trip_entry_point_returns_true() {
    let pp = setup(&SetupParams { config: test_config(), num_layer_challenges: 2 }).unwrap();
    let mut data = sector_data();
    let (ok, proofs) = nse_porep::scheme::round_trip(&pp, &dom(7), &dom(99), &mut data, 2, 3).unwrap();
    assert!(ok);
    assert_eq!(proofs.len(), 3);
    // a layout the configuration refuses is an error, not a false result
    let mut short = vec![dom(1)];
    let bad = nse_porep::scheme::round_trip(&pp, &dom(7), &dom(99), &mut short, 2, 3);
    assert_eq!(bad.err().unwrap(), Error::LayoutMismatch);
}

#[test]
fn round_trip_with_no_middle_layers() {
    // only the first and last layers: both middle-layer counts are zero
    let cfg = Config {
        k: 2,
        num_nodes_window: 4,
        degree_expander: 6,
        degree_butterfly: 4,
        num_expander_layers: 0,
        num_butterfly_layers: 0,
        sector_size: 8 * 32,
    };
    assert!(cfg.is_valid());
    assert_eq!(cfg.num_layers(), 2);
    let pp = setup(&SetupParams { config: cfg, num_layer_challenges: 2 }).unwrap();
    let mut data = Vec::new();
    for i in 0..8u8 {
        data.push(dom(i));
    }
    let (ok, proofs) = nse_porep::scheme::round_trip(&pp, &dom(5), &dom(6), &mut data, 2, 1).unwrap();
    assert!(ok);
    assert_eq!(proofs.len(), 1);
    assert_eq!(proofs[0].comm_layers.len(), 2);
}

#[test]
fn replicate_rejects_wrong_layout() {
    let pp = setup(&SetupParams { config: test_config(), num_layer_challenges: 2 }).unwrap();
    let replica_id = dom(7);
    // wrong node count
    let mut short = vec![dom(1), dom(2)];
    assert_eq!(replicate(&pp, &replica_id, &mut short, 2).err().unwrap(), Error::LayoutMismatch);
    // node count not a power of the arity
    let mut data = sector_data();
    assert_eq!(replicate(&pp, &replica_id, &mut data, 3).err().unwrap(), Error::LayoutMismatch);
    // a malformed node value
    let mut bad = sector_data();
    bad[5] = Domain { bytes: vec![1, 2, 3] };
    assert_eq!(replicate(&pp, &replica_id, &mut bad, 2).err().unwrap(), Error::LayoutMismatch);
}

#[test]
fn arbitrary_inputs_do_not_crash_verification() {
    // a robustness probe: a structurally arbitrary proof must yield a
    // boolean, never a crash
    let pp = setup(&SetupParams { config: test_config(), num_layer_challenges: 2 }).unwrap();
    let pub_in = PublicInputs {
        replica_id: dom(1),
        seed: dom(2),
        tau: Commitments { comm_d: dom(3), comm_r: dom(4) },
        k: None,
    };
    let mut junk_roots = Vec::new();
    for _ in 0..7 {
        junk_roots.push(dom(9));
    }
    let junk = nse_porep::scheme::Proof { comm_layers: junk_roots, layer_proofs: Vec::new() };
    assert!(!verify_all_partitions(&pp, &pub_in, &vec![junk]));
    let empty = nse_porep::scheme::Proof { comm_layers: Vec::new(), layer_proofs: Vec::new() };
    assert!(!verify_all_partitions(&pp, &pub_in, &vec![empty]));
}
