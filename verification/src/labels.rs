//! Label derivation, one variant per layer class.
//!
//! A node's label is the tagged compression of the replica identity, the
//! layer number, the challenge index, and (for the middle and last layers)
//! the labels of the node's parents. The same spec functions also state
//! what the in-circuit derivation computes, so the native and arithmetized
//! forms agree by construction.
use vstd::prelude::*;
use crate::hashing::{
    Domain, views, compress, compress_of, domain_of_u64, domain_from_u64, TAG_FIRST, TAG_EXPANDER,
    TAG_BUTTERFLY,
};

verus! {

/// The first-layer label: derived from the replica identity and the
/// challenge index alone.
pub open spec fn first_label_of(rid: Seq<u8>, challenge: u64) -> Seq<u8> {
    compress_of(TAG_FIRST, seq![rid, domain_of_u64(challenge)])
}

/// An expander-layer label: replica identity, layer number, challenge
/// index, and the parent labels.
pub open spec fn expander_label_of(
    rid: Seq<u8>,
    layer: u64,
    challenge: u64,
    parents: Seq<Seq<u8>>,
) -> Seq<u8> {
    compress_of(
        TAG_EXPANDER,
        seq![rid, domain_of_u64(layer), domain_of_u64(challenge)] + parents,
    )
}

/// A butterfly-layer label (also used for the last layer): replica
/// identity, layer number, challenge index, and the parent labels.
pub open spec fn butterfly_label_of(
    rid: Seq<u8>,
    layer: u64,
    challenge: u64,
    parents: Seq<Seq<u8>>,
) -> Seq<u8> {
    compress_of(
        TAG_BUTTERFLY,
        seq![rid, domain_of_u64(layer), domain_of_u64(challenge)] + parents,
    )
}

/// Derive a first-layer label.
pub fn derive_first_layer_label(rid: &Domain, challenge: u64) -> (r: Domain)
    ensures
        r@ == first_label_of(rid@, challenge),
        r.wf(),
{
    let mut parts: Vec<Domain> = Vec::new();
    parts.push(rid.dup());
    parts.push(domain_from_u64(challenge));
    proof {
        assert(views(parts@) =~= seq![rid@, domain_of_u64(challenge)]);
    }
    compress(TAG_FIRST, &parts)
}

/// Build the shared prefix and parent tail for a parent-bearing label.
fn label_parts(rid: &Domain, layer: u64, challenge: u64, parents: &Vec<Domain>) -> (r: Vec<Domain>)
    ensures
        views(r@) == seq![rid@, domain_of_u64(layer), domain_of_u64(challenge)] + views(parents@),
{
    let mut parts: Vec<Domain> = Vec::new();
    parts.push(rid.dup());
    parts.push(domain_from_u64(layer));
    parts.push(domain_from_u64(challenge));
    let n = parents.len();
    let mut i: usize = 0;
    while i < n
        invariant
            i <= n,
            n == parents@.len(),
            parts@.len() == 3 + i,
            parts@[0]@ == rid@,
            parts@[1]@ == domain_of_u64(layer),
            parts@[2]@ == domain_of_u64(challenge),
            forall|j: int| 0 <= j < i ==> parts@[3 + j]@ == parents@[j]@,
        decreases n - i,
    {
        parts.push(parents[i].dup());
        i += 1;
    }
    proof {
        let expected = seq![rid@, domain_of_u64(layer), domain_of_u64(challenge)] + views(
            parents@,
        );
        assert forall|m: int| 0 <= m < expected.len() implies views(parts@)[m] == expected[m] by {
            assert(views(parts@)[m] == parts@[m]@);
            if m >= 3 {
                assert(expected[m] == views(parents@)[m - 3]);
            }
        }
        assert(views(parts@) =~= expected);
    }
    parts
}

/// Derive an expander-layer label from declared parent values.
pub fn derive_expander_layer_label(
    rid: &Domain,
    layer: u64,
    challenge: u64,
    parents: &Vec<Domain>,
) -> (r: Domain)
    ensures
        r@ == expander_label_of(rid@, layer, challenge, views(parents@)),
        r.wf(),
{
    let parts = label_parts(rid, layer, challenge, parents);
    compress(TAG_EXPANDER, &parts)
}

/// Derive a butterfly-layer (or last-layer) label from declared parent
/// values.
pub fn derive_butterfly_layer_label(
    rid: &Domain,
    layer: u64,
    challenge: u64,
    parents: &Vec<Domain>,
) -> (r: Domain)
    ensures
        r@ == butterfly_label_of(rid@, layer, challenge, views(parents@)),
        r.wf(),
{
    let parts = label_parts(rid, layer, challenge, parents);
    compress(TAG_BUTTERFLY, &parts)
}

} // verus!
