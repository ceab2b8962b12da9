use nse_porep::challenges::{derive_challenge, derive_challenges, derive_parent};
use nse_porep::hashing::{Domain, zero_domain, domain_from_u64};
use nse_porep::merkle::{MerkleTree, verify_inclusion};
use nse_porep::Config;

fn test_config() -> Config {
    Config {
        k: 4,
        num_nodes_window: 8,
        degree_expander: 6,
        degree_butterfly: 4,
        num_expander_layers: 3,
        num_butterfly_layers: 2,
        sector_size: 32 * 32,
    }
}

fn dom(b: u8) -> Domain {
    Domain::from_bytes(vec![b; 32]).unwrap()
}

#[test]
fn domain_construction_checks_length() {
    assert!(Domain::from_bytes(vec![0u8; 32]).is_some());
    assert!(Domain::from_bytes(vec![0u8; 31]).is_none());
    assert!(Domain::from_bytes(vec![0u8; 33]).is_none());
    assert!(Domain::from_bytes(Vec::new()).is_none());
}

#[test]
fn domain_equality_is_by_value() {
    let a = dom(5);
    let b = dom(5);
    let c = dom(6);
    assert!(a.eq_value(&b));
    assert!(!a.eq_value(&c));
    assert!(zero_domain().eq_value(&zero_domain()));
    assert!(domain_from_u64(77).eq_value(&domain_from_u64(77)));
    assert!(!domain_from_u64(77).eq_value(&domain_from_u64(78)));
}

#[test]
fn merkle_openings_fold_to_the_root() {
    let mut leaves = Vec::new();
    for i in 0..8u8 {
        leaves.push(dom(i));
    }
    let tree = MerkleTree::new(&leaves, 2).unwrap();
    let root = tree.root();
    for i in 0..8usize {
        let path = tree.prove_leaf(i);
        assert!(verify_inclusion(&leaves[i], &path, &root));
    }
    // a wrong leaf does not authenticate
    let path0 = tree.prove_leaf(0);
    assert!(!verify_inclusion(&dom(42), &path0, &root));
    // a wrong root does not authenticate
    assert!(!verify_inclusion(&leaves[0], &path0, &dom(1)));
}

#[test]
fn merkle_higher_arity_and_bad_shapes() {
    let mut leaves = Vec::new();
    for i in 0..16u8 {
        leaves.push(dom(i));
    }
    let tree = MerkleTree::new(&leaves, 4).unwrap();
    let root = tree.root();
    let path = tree.prove_leaf(11);
    assert!(verify_inclusion(&leaves[11], &path, &root));
    // 16 leaves do not fold at arity 3
    assert!(MerkleTree::new(&leaves, 3).is_none());
    // no leaves, no tree
    assert!(MerkleTree::new(&Vec::new(), 2).is_none());
}

#[test]
fn challenge_derivation_is_deterministic() {
    let rid = dom(1);
    let seed = dom(2);
    let a = derive_challenges(&rid, &seed, 0, 14, 32);
    let b = derive_challenges(&rid, &seed, 0, 14, 32);
    assert_eq!(a, b);
    for c in &a {
        assert!(*c < 32);
    }
    // a different seed changes the sequence
    let other = derive_challenges(&rid, &dom(3), 0, 14, 32);
    assert_ne!(a, other);
    // a different partition changes the sequence
    let shifted = derive_challenges(&rid, &seed, 1, 14, 32);
    assert_ne!(a, shifted);
}

#[test]
fn single_challenge_matches_sequence() {
    let rid = dom(1);
    let seed = dom(2);
    let seq = derive_challenges(&rid, &seed, 3, 5, 32);
    for counter in 0..5u64 {
        let one = derive_challenge(&rid, &seed, 3, counter, 32);
        assert_eq!(one, seq[counter as usize]);
    }
}

#[test]
fn parents_stay_inside_the_window() {
    let cfg = test_config();
    // node 19 lives in window 2 (nodes 16..24)
    for j in 0..6u64 {
        let p = derive_parent(&cfg, 3, 19, j);
        assert!(p >= 16 && p < 24, "parent {} left the window", p);
    }
    // parent derivation is deterministic
    assert_eq!(derive_parent(&cfg, 3, 19, 2), derive_parent(&cfg, 3, 19, 2));
}
