//! The replica commitment: a fixed-arity iterated compression of the
//! layer-root sequence.
//!
//! The layer roots are right-padded with the zero element to a multiple of
//! the compression arity, then folded chunk by chunk into a running state.
use vstd::prelude::*;
use crate::hashing::{
    Domain, views, all_wf, compress, compress_of, dup_all, zero_domain, zeros, TAG_MD,
};

verus! {

/// The arity of the commitment-folding compression.
pub const MD_ARITY: usize = 8;

/// One folding pass: consume eight entries at a time into the state.
pub open spec fn md_step(state: Seq<u8>, s: Seq<Seq<u8>>) -> Seq<u8>
    decreases s.len(),
{
    if s.len() < 8 {
        state
    } else {
        md_step(compress_of(TAG_MD, seq![state] + s.take(8)), s.skip(8))
    }
}

/// How many zero entries padding adds.
pub open spec fn pad_count(n: int) -> int {
    if n % 8 == 0 {
        0
    } else {
        8 - (n % 8)
    }
}

/// The sequence right-padded with zero elements to a multiple of the
/// arity.
pub open spec fn pad_md(s: Seq<Seq<u8>>) -> Seq<Seq<u8>> {
    s + Seq::new(pad_count(s.len() as int) as nat, |i: int| zeros(32))
}

/// The replica commitment determined by the layer-root sequence.
pub open spec fn comm_r_of(s: Seq<Seq<u8>>) -> Seq<u8> {
    md_step(zeros(32), pad_md(s))
}

/// Compute the replica commitment from the layer roots.
pub fn hash_md(parts: &Vec<Domain>) -> (r: Domain)
    ensures
        r@ == comm_r_of(views(parts@)),
        parts@.len() > 0 ==> r.wf(),
{
    let mut padded = dup_all(parts);
    let rem = parts.len() % MD_ARITY;
    let pad = if rem == 0 {
        0
    } else {
        MD_ARITY - rem
    };
    let mut i: usize = 0;
    while i < pad
        invariant
            i <= pad,
            pad == pad_count(parts@.len() as int),
            padded@.len() == parts@.len() + i,
            forall|j: int| 0 <= j < parts@.len() ==> (#[trigger] padded@[j])@ == parts@[j]@,
            forall|j: int| parts@.len() <= j < padded@.len() ==> (#[trigger] padded@[j])@ == zeros(32),
        decreases pad - i,
    {
        padded.push(zero_domain());
        i += 1;
    }
    proof {
        assert forall|m: int| 0 <= m < pad_md(views(parts@)).len() implies views(padded@)[m]
            == pad_md(views(parts@))[m] by {
            assert(views(padded@)[m] == padded@[m]@);
            if m < parts@.len() {
                assert(pad_md(views(parts@))[m] == views(parts@)[m]);
            }
        }
        assert(views(padded@) =~= pad_md(views(parts@)));
    }
    let n = padded.len();
    proof {
        assert((n as int) % 8 == 0);
    }
    let mut state = zero_domain();
    let mut i: usize = 0;
    proof {
        assert(views(padded@).skip(0) =~= views(padded@));
    }
    while i < n
        invariant
            i <= n,
            i % 8 == 0,
            n % 8 == 0,
            n == padded@.len(),
            state.wf(),
            comm_r_of(views(parts@)) == md_step(state@, views(padded@).skip(i as int)),
            views(padded@) == pad_md(views(parts@)),
        decreases n - i,
    {
        let mut group: Vec<Domain> = Vec::new();
        group.push(state.dup());
        let mut j: usize = 0;
        while j < 8
            invariant
                j <= 8,
                i + 8 <= n,
                n == padded@.len(),
                group@.len() == 1 + j,
                group@[0]@ == state@,
                forall|m: int| 0 <= m < j ==> (#[trigger] group@[1 + m])@ == padded@[i + m]@,
            decreases 8 - j,
        {
            group.push(padded[i + j].dup());
            j += 1;
        }
        proof {
            let rest = views(padded@).skip(i as int);
            assert(rest.len() >= 8);
            assert forall|m: int| 0 <= m < 9 implies views(group@)[m] == (seq![state@]
                + rest.take(8))[m] by {
                assert(views(group@)[m] == group@[m]@);
                if m >= 1 {
                    assert(group@[1 + (m - 1)]@ == padded@[i + (m - 1)]@);
                    assert(rest.take(8)[m - 1] == views(padded@)[i + m - 1]);
                    assert(views(padded@)[i + m - 1] == padded@[i + m - 1]@);
                }
            }
            assert(views(group@) =~= seq![state@] + rest.take(8));
            assert(rest.skip(8) =~= views(padded@).skip(i + 8));
        }
        state = compress(TAG_MD, &group);
        i += 8;
    }
    proof {
        assert(views(padded@).skip(n as int) =~= Seq::<Seq<u8>>::empty());
        assert(md_step(state@, Seq::<Seq<u8>>::empty()) == state@);
    }
    state
}

} // verus!
