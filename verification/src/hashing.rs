//! Domain elements and the hash primitive every derivation is built on.
//!
//! A `Domain` is a 32-byte value: a tree node, a label, a commitment or a
//! replica identity. All hashing in the scheme is one fixed-output digest
//! applied to tagged byte strings; the tag separates the different uses
//! (tree compression, commitment folding, the label classes, challenge and
//! parent sampling).
use vstd::prelude::*;

verus! {

/// Tag for Merkle-tree node compression.
pub const TAG_NODE: u8 = 0;
/// Tag for the commitment-folding compression.
pub const TAG_MD: u8 = 1;
/// Tag for first-layer label derivation.
pub const TAG_FIRST: u8 = 2;
/// Tag for expander-layer label derivation.
pub const TAG_EXPANDER: u8 = 3;
/// Tag for butterfly-layer label derivation.
pub const TAG_BUTTERFLY: u8 = 4;
/// Tag for challenge derivation.
pub const TAG_CHALLENGE: u8 = 5;
/// Tag for parent-index derivation.
pub const TAG_PARENT: u8 = 6;

/// The byte width of a domain element.
pub const NODE_SIZE: usize = 32;

/// What the digest returns on a given byte string. The result is a function
/// of the input bytes alone.
pub uninterp spec fn digest_of(input: Seq<u8>) -> Seq<u8>;

/// Relies on sha2::Sha256::digest: a 32-byte digest computed from the input
/// bytes alone.
#[verifier::external_body]
fn digest32(input: &Vec<u8>) -> (r: Vec<u8>)
    ensures
        r@ == digest_of(input@),
        r@.len() == 32,
{
    <sha2::Sha256 as sha2::Digest>::digest(input.as_slice()).to_vec()
}

/// A 32-byte domain element.
pub struct Domain {
    /// The raw bytes, always exactly 32 of them.
    pub bytes: Vec<u8>,
}

impl View for Domain {
    type V = Seq<u8>;

    open spec fn view(&self) -> Seq<u8> {
        self.bytes@
    }
}

impl Domain {
    /// A domain element holds exactly 32 bytes.
    pub open spec fn wf(self) -> bool {
        self@.len() == 32
    }

    /// Build a domain element from bytes; rejects any length but 32.
    pub fn from_bytes(bytes: Vec<u8>) -> (r: Option<Domain>)
        ensures
            r is Some <==> bytes@.len() == 32,
            r is Some ==> r->0@ == bytes@ && r->0.wf(),
    {
        if bytes.len() == 32 {
            Some(Domain { bytes })
        } else {
            None
        }
    }

    /// An identical copy.
    pub fn dup(&self) -> (r: Domain)
        ensures
            r@ == self@,
    {
        let bytes = self.bytes.clone();
        assert(bytes@ =~= self.bytes@);
        Domain { bytes }
    }

    /// Byte-for-byte equality.
    pub fn eq_value(&self, other: &Domain) -> (r: bool)
        ensures
            r == (self@ == other@),
    {
        if self.bytes.len() != other.bytes.len() {
            assert(self@.len() != other@.len());
            return false;
        }
        let n = self.bytes.len();
        let mut i: usize = 0;
        while i < n
            invariant
                i <= n,
                n == self@.len(),
                n == other@.len(),
                forall|j: int| 0 <= j < i ==> self@[j] == other@[j],
            decreases n - i,
        {
            if self.bytes[i] != other.bytes[i] {
                return false;
            }
            i += 1;
        }
        assert(self@ =~= other@);
        true
    }
}

/// The all-zero sequence of the given length.
pub open spec fn zeros(n: nat) -> Seq<u8> {
    Seq::new(n, |i: int| 0u8)
}

/// The zero domain element, used for padding.
pub fn zero_domain() -> (r: Domain)
    ensures
        r@ == zeros(32),
        r.wf(),
{
    let mut bytes: Vec<u8> = Vec::new();
    let mut i: usize = 0;
    while i < 32
        invariant
            i <= 32,
            bytes@.len() == i,
            forall|j: int| 0 <= j < i ==> bytes@[j] == 0u8,
        decreases 32 - i,
    {
        bytes.push(0u8);
        i += 1;
    }
    assert(bytes@ =~= zeros(32));
    Domain { bytes }
}

/// The little-endian bytes of a 64-bit value.
pub open spec fn u64_le(x: u64) -> Seq<u8> {
    seq![
        x as u8,
        (x >> 8) as u8,
        (x >> 16) as u8,
        (x >> 24) as u8,
        (x >> 32) as u8,
        (x >> 40) as u8,
        (x >> 48) as u8,
        (x >> 56) as u8,
    ]
}

/// A 64-bit value packed into a domain element: little-endian bytes then
/// zero padding.
pub open spec fn domain_of_u64(x: u64) -> Seq<u8> {
    u64_le(x) + zeros(24)
}

/// Pack a 64-bit value into a domain element.
pub fn domain_from_u64(x: u64) -> (r: Domain)
    ensures
        r@ == domain_of_u64(x),
        r.wf(),
{
    let mut bytes: Vec<u8> = Vec::new();
    bytes.push(x as u8);
    bytes.push((x >> 8) as u8);
    bytes.push((x >> 16) as u8);
    bytes.push((x >> 24) as u8);
    bytes.push((x >> 32) as u8);
    bytes.push((x >> 40) as u8);
    bytes.push((x >> 48) as u8);
    bytes.push((x >> 56) as u8);
    let mut i: usize = 8;
    while i < 32
        invariant
            8 <= i <= 32,
            bytes@.len() == i,
            bytes@.subrange(0, 8) =~= u64_le(x),
            forall|j: int| 8 <= j < i ==> bytes@[j] == 0u8,
        decreases 32 - i,
    {
        bytes.push(0u8);
        i += 1;
    }
    assert(bytes@ =~= domain_of_u64(x));
    Domain { bytes }
}

/// Copy a sequence of domain elements.
pub fn dup_all(xs: &Vec<Domain>) -> (r: Vec<Domain>)
    ensures
        r@.len() == xs@.len(),
        forall|i: int| 0 <= i < xs@.len() ==> (#[trigger] r@[i])@ == xs@[i]@,
{
    let n = xs.len();
    let mut r: Vec<Domain> = Vec::new();
    let mut i: usize = 0;
    while i < n
        invariant
            i <= n,
            n == xs@.len(),
            r@.len() == i,
            forall|j: int| 0 <= j < i ==> (#[trigger] r@[j])@ == xs@[j]@,
        decreases n - i,
    {
        r.push(xs[i].dup());
        i += 1;
    }
    r
}

/// The views of a sequence of domain elements.
pub open spec fn views(parts: Seq<Domain>) -> Seq<Seq<u8>> {
    parts.map_values(|d: Domain| d@)
}

/// All elements of a sequence of domain elements hold 32 bytes.
pub open spec fn all_wf(parts: Seq<Domain>) -> bool {
    forall|i: int| 0 <= i < parts.len() ==> (#[trigger] parts[i]).wf()
}

/// The concatenation of a sequence of byte strings.
pub open spec fn concat_all(parts: Seq<Seq<u8>>) -> Seq<u8>
    decreases parts.len(),
{
    if parts.len() == 0 {
        Seq::empty()
    } else {
        parts[0] + concat_all(parts.skip(1))
    }
}

/// Appending one more part extends the concatenation on the right.
pub proof fn lemma_concat_all_push(parts: Seq<Seq<u8>>, last: Seq<u8>)
    ensures
        concat_all(parts.push(last)) == concat_all(parts) + last,
    decreases parts.len(),
{
    if parts.len() == 0 {
        assert(parts.push(last)[0] == last);
        assert(parts.push(last).skip(1) =~= Seq::<Seq<u8>>::empty());
        assert(concat_all(parts) == Seq::<u8>::empty());
        assert(concat_all(parts.push(last)) == last + concat_all(Seq::<Seq<u8>>::empty()));
        assert(concat_all(Seq::<Seq<u8>>::empty()) == Seq::<u8>::empty());
        assert(last + Seq::<u8>::empty() =~= Seq::<u8>::empty() + last);
    } else {
        assert(parts.push(last).skip(1) =~= parts.skip(1).push(last));
        lemma_concat_all_push(parts.skip(1), last);
        assert(parts.push(last)[0] == parts[0]);
        assert(concat_all(parts.push(last)) == parts[0] + (concat_all(parts.skip(1)) + last));
        assert(parts[0] + (concat_all(parts.skip(1)) + last) =~= (parts[0] + concat_all(
            parts.skip(1),
        )) + last);
    }
}

/// The compression of a sequence of domain elements under a tag: the digest
/// of the tag byte followed by the concatenated element bytes.
pub open spec fn compress_of(tag: u8, parts: Seq<Seq<u8>>) -> Seq<u8> {
    digest_of(seq![tag] + concat_all(parts))
}

/// Compress a sequence of domain elements under a tag.
pub fn compress(tag: u8, parts: &Vec<Domain>) -> (r: Domain)
    ensures
        r@ == compress_of(tag, views(parts@)),
        r.wf(),
{
    let mut input: Vec<u8> = Vec::new();
    input.push(tag);
    let n = parts.len();
    let mut i: usize = 0;
    assert(views(parts@).take(0) =~= Seq::<Seq<u8>>::empty());
    assert(input@ =~= seq![tag] + concat_all(views(parts@).take(0)));
    while i < n
        invariant
            i <= n,
            n == parts@.len(),
            input@ == seq![tag] + concat_all(views(parts@).take(i as int)),
        decreases n - i,
    {
        let mut j: usize = 0;
        let part_len = parts[i].bytes.len();
        while j < part_len
            invariant
                j <= part_len,
                i < n,
                n == parts@.len(),
                part_len == parts@[i as int]@.len(),
                input@ == seq![tag] + concat_all(views(parts@).take(i as int))
                    + parts@[i as int]@.take(j as int),
            decreases part_len - j,
        {
            let b = parts[i].bytes[j];
            input.push(b);
            assert(parts@[i as int]@.take(j + 1) =~= parts@[i as int]@.take(j as int).push(b));
            j += 1;
        }
        proof {
            assert(parts@[i as int]@.take(part_len as int) =~= parts@[i as int]@);
            assert(views(parts@).take(i + 1) =~= views(parts@).take(i as int).push(
                parts@[i as int]@,
            ));
            lemma_concat_all_push(views(parts@).take(i as int), parts@[i as int]@);
        }
        i += 1;
    }
    assert(views(parts@).take(n as int) =~= views(parts@));
    let bytes = digest32(&input);
    Domain { bytes }
}

} // verus!
