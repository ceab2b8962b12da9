//! Deterministic challenge and parent-index sampling.
//!
//! Challenges are node indices in `[0, num_nodes_sector)` derived from the
//! replica identity, the randomness seed, the partition index and a
//! running counter; parent indices stay inside the challenged node's
//! window. Both are functions of their arguments alone, so repeated
//! derivation yields identical sequences.
use vstd::prelude::*;
use crate::Config;
use crate::hashing::{
    Domain, views, compress, compress_of, domain_of_u64, domain_from_u64, TAG_CHALLENGE,
    TAG_PARENT,
};

verus! {

/// The 64-bit value read from the first eight bytes, little endian.
pub open spec fn u64_from_le(s: Seq<u8>) -> u64
    recommends
        s.len() >= 8,
{
    (s[0] as u64) | ((s[1] as u64) << 8) | ((s[2] as u64) << 16) | ((s[3] as u64) << 24) | ((
    s[4] as u64) << 32) | ((s[5] as u64) << 40) | ((s[6] as u64) << 48) | ((s[7] as u64) << 56)
}

/// Read the first eight bytes of a domain element as a 64-bit value.
fn u64_from_domain(d: &Domain) -> (r: u64)
    requires
        d.wf(),
    ensures
        r == u64_from_le(d@),
{
    (d.bytes[0] as u64) | ((d.bytes[1] as u64) << 8) | ((d.bytes[2] as u64) << 16) | ((
    d.bytes[3] as u64) << 24) | ((d.bytes[4] as u64) << 32) | ((d.bytes[5] as u64) << 40) | ((
    d.bytes[6] as u64) << 48) | ((d.bytes[7] as u64) << 56)
}

/// The digest a challenge is drawn from.
pub open spec fn challenge_digest(rid: Seq<u8>, seed: Seq<u8>, partition: u64, counter: u64)
    -> Seq<u8> {
    compress_of(TAG_CHALLENGE, seq![rid, seed, domain_of_u64(partition), domain_of_u64(counter)])
}

/// The challenge with the given counter: a node index below `num_nodes`.
pub open spec fn challenge_of(
    rid: Seq<u8>,
    seed: Seq<u8>,
    partition: u64,
    counter: u64,
    num_nodes: u64,
) -> u64
    recommends
        num_nodes >= 1,
{
    u64_from_le(challenge_digest(rid, seed, partition, counter)) % num_nodes
}

/// Derive one challenge.
pub fn derive_challenge(
    rid: &Domain,
    seed: &Domain,
    partition: u64,
    counter: u64,
    num_nodes: u64,
) -> (r: u64)
    requires
        num_nodes >= 1,
    ensures
        r == challenge_of(rid@, seed@, partition, counter, num_nodes),
        r < num_nodes,
{
    let mut parts: Vec<Domain> = Vec::new();
    parts.push(rid.dup());
    parts.push(seed.dup());
    parts.push(domain_from_u64(partition));
    parts.push(domain_from_u64(counter));
    proof {
        assert(views(parts@) =~= seq![
            rid@,
            seed@,
            domain_of_u64(partition),
            domain_of_u64(counter),
        ]);
    }
    let d = compress(TAG_CHALLENGE, &parts);
    let v = u64_from_domain(&d);
    v % num_nodes
}

/// The ordered challenge sequence for one partition: `count` node indices
/// drawn with a running counter.
pub open spec fn challenge_seq(
    rid: Seq<u8>,
    seed: Seq<u8>,
    partition: u64,
    count: int,
    num_nodes: u64,
) -> Seq<u64> {
    Seq::new(count as nat, |i: int| challenge_of(rid, seed, partition, i as u64, num_nodes))
}

/// Derive the full challenge sequence for one partition.
pub fn derive_challenges(
    rid: &Domain,
    seed: &Domain,
    partition: u64,
    count: u64,
    num_nodes: u64,
) -> (r: Vec<u64>)
    requires
        num_nodes >= 1,
    ensures
        r@ == challenge_seq(rid@, seed@, partition, count as int, num_nodes),
        r@.len() == count,
        forall|i: int| 0 <= i < r@.len() ==> r@[i] < num_nodes,
{
    let mut r: Vec<u64> = Vec::new();
    let mut i: u64 = 0;
    while i < count
        invariant
            i <= count,
            num_nodes >= 1,
            r@.len() == i,
            forall|j: int|
                0 <= j < i ==> r@[j] == challenge_of(rid@, seed@, partition, j as u64, num_nodes)
                    && #[trigger] r@[j] < num_nodes,
        decreases count - i,
    {
        let c = derive_challenge(rid, seed, partition, i, num_nodes);
        r.push(c);
        i += 1;
    }
    proof {
        assert(r@ =~= challenge_seq(rid@, seed@, partition, count as int, num_nodes));
    }
    r
}

/// The digest a parent index is drawn from: graph structure only, no
/// replica identity.
pub open spec fn parent_digest(layer: u64, challenge: u64, j: u64) -> Seq<u8> {
    compress_of(
        TAG_PARENT,
        seq![domain_of_u64(layer), domain_of_u64(challenge), domain_of_u64(j)],
    )
}

/// The index of the `j`-th parent of a node: inside the node's own window.
pub open spec fn parent_of(cfg: Config, layer: u64, challenge: u64, j: u64) -> u64
    recommends
        cfg.wf(),
        challenge < cfg.spec_num_nodes_sector(),
{
    let w = cfg.num_nodes_window;
    (((challenge / w) * w) + (u64_from_le(parent_digest(layer, challenge, j)) % w) as int) as u64
}

/// Derive the index of the `j`-th parent of a challenged node.
pub fn derive_parent(cfg: &Config, layer: u64, challenge: u64, j: u64) -> (r: u64)
    requires
        cfg.wf(),
        challenge < cfg.spec_num_nodes_sector(),
    ensures
        r == parent_of(*cfg, layer, challenge, j),
        r < cfg.spec_num_nodes_sector(),
        r / cfg.num_nodes_window == challenge / cfg.num_nodes_window,
{
    let w = cfg.num_nodes_window;
    let win = challenge / w;
    proof {
        assert(win * w + w <= cfg.k * w) by (nonlinear_arith)
            requires
                w >= 1,
                win == challenge as int / w as int,
                challenge < cfg.k * w,
                cfg.k * w <= u64::MAX,
        ;
    }
    let base = win * w;
    let mut parts: Vec<Domain> = Vec::new();
    parts.push(domain_from_u64(layer));
    parts.push(domain_from_u64(challenge));
    parts.push(domain_from_u64(j));
    proof {
        assert(views(parts@) =~= seq![
            domain_of_u64(layer),
            domain_of_u64(challenge),
            domain_of_u64(j),
        ]);
    }
    let d = compress(TAG_PARENT, &parts);
    let off = u64_from_domain(&d) % w;
    let r = base + off;
    proof {
        assert(r / w == win && r < cfg.k * w) by (nonlinear_arith)
            requires
                w >= 1,
                off < w,
                base == win * w,
                r == base + off,
                win * w + w <= cfg.k * w,
        ;
    }
    r
}

} // verus!
