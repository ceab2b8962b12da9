use nse_porep::circuit::{ConstraintSystem, NseCircuit, SynthesisError, generate_public_inputs};
use nse_porep::hashing::Domain;
use nse_porep::scheme::{setup, replicate, prove_all_partitions};
use nse_porep::{Config, Commitments, PublicInputs, SetupParams};

fn test_config() -> Config {
    Config {
        k: 4,
        num_nodes_window: 8,
        degree_expander: 6,
        degree_butterfly: 4,
        num_expander_layers: 3,
        num_butterfly_layers: 2,
        sector_size: 32 * 32,
    }
}

fn dom(b: u8) -> Domain {
    Domain::from_bytes(vec![b; 32]).unwrap()
}

fn sector_data() -> Vec<Domain> {
    let mut data = Vec::new();
    for i in 0..32u8 {
        data.push(dom(i));
    }
    data
}

struct Fixture {
    pp: nse_porep::PublicParams,
    pub_in: PublicInputs,
    circuit: NseCircuit,
}

fn build_circuit() -> Fixture {
    let pp = setup(&SetupParams { config: test_config(), num_layer_challenges: 2 }).unwrap();
    let replica_id = dom(7);
    let mut data = sector_data();
    let (tau, aux) = replicate(&pp, &replica_id, &mut data, 2).unwrap();
    let pub_in = PublicInputs {
        replica_id: replica_id.dup(),
        seed: dom(99),
        tau: Commitments { comm_d: tau.comm_d.dup(), comm_r: tau.comm_r.dup() },
        k: Some(0),
    };
    let mut proofs = prove_all_partitions(&pp, &pub_in, &aux, 1);
    let proof = proofs.remove(0);
    let circuit = NseCircuit::from_proof(&pub_in, proof, &pp);
    Fixture { pp, pub_in, circuit }
}

#[test]
fn honest_circuit_is_satisfied() {
    let f = build_circuit();
    let mut cs = ConstraintSystem::new();
    f.circuit.synthesize(&mut cs).unwrap();
    assert!(cs.is_satisfied(), "constraints not satisfied");
}

#[test]
fn circuit_input_and_constraint_counts_are_reproducible() {
    // golden regression values for the fixed test configuration
    let f = build_circuit();
    let mut cs = ConstraintSystem::new();
    f.circuit.synthesize(&mut cs).unwrap();
    assert_eq!(cs.num_inputs(), 18, "wrong number of inputs");
    assert_eq!(cs.num_constraints(), 906, "wrong number of constraints");
}

#[test]
fn circuit_inputs_match_generated_public_inputs() {
    let f = build_circuit();
    let mut cs = ConstraintSystem::new();
    f.circuit.synthesize(&mut cs).unwrap();
    let generated = generate_public_inputs(&f.pub_in, &f.pp, Some(0));
    assert_eq!(cs.public_inputs.len(), generated.len(), "inputs are not the same length");
    for (a, b) in cs.public_inputs.iter().zip(generated.iter()) {
        assert!(a.eq_value(b));
    }
}

#[test]
fn mismatched_comm_r_is_unsatisfiable() {
    let mut f = build_circuit();
    let mut bad = f.circuit.comm_r.take().unwrap();
    bad.bytes[0] ^= 1;
    f.circuit.comm_r = Some(bad);
    let mut cs = ConstraintSystem::new();
    f.circuit.synthesize(&mut cs).unwrap();
    assert!(!cs.is_satisfied());
}

#[test]
fn tampered_witness_is_unsatisfiable() {
    let mut f = build_circuit();
    f.circuit.layer_proofs[0].butterfly_layer_proofs[0].data_leaf.bytes[17] ^= 4;
    let mut cs = ConstraintSystem::new();
    f.circuit.synthesize(&mut cs).unwrap();
    assert!(!cs.is_satisfied());
}

#[test]
fn blank_circuit_reports_missing_assignment() {
    let pp = setup(&SetupParams { config: test_config(), num_layer_challenges: 2 }).unwrap();
    let blank = NseCircuit::blank(&pp);
    let mut cs = ConstraintSystem::new();
    assert_eq!(blank.synthesize(&mut cs).err().unwrap(), SynthesisError::AssignmentMissing);
}

#[test]
fn missing_assignment_fails_synthesis() {
    let mut f = build_circuit();
    f.circuit.comm_r = None;
    let mut cs = ConstraintSystem::new();
    assert_eq!(f.circuit.synthesize(&mut cs).err().unwrap(), SynthesisError::AssignmentMissing);

    let mut g = build_circuit();
    g.circuit.comm_layers[2] = None;
    let mut cs2 = ConstraintSystem::new();
    assert_eq!(g.circuit.synthesize(&mut cs2).err().unwrap(), SynthesisError::AssignmentMissing);
}
