use vstd::prelude::*;

verus! {

/// The rapidhash V3 digest (default seed and secrets) of a byte string.
pub uninterp spec fn rapidhash_v3_of(bytes: Seq<u8>) -> u64;

/// Relies on `rapidhash::v3::rapidhash_v3`: a pure function of the bytes it
/// is given, stable across runs and platforms, which never panics.
#[verifier::external_body]
fn rapidhash_v3_digest(bytes: &[u8]) -> (r: u64)
    ensures
        r == rapidhash_v3_of(bytes@),
{
    rapidhash::v3::rapidhash_v3(bytes)
}

/// Default hasher used in the library.
///
/// It buffers every byte written to it and digests the whole buffer with
/// rapidhash V3 when finished. rapidhash is portable and its V3 output is
/// frozen, so the same value hashes to the same digest on every platform and
/// in every release.
pub struct DefaultHasher {
    bytes: Vec<u8>,
}

impl View for DefaultHasher {
    type V = Seq<u8>;

    /// The bytes written so far.
    closed spec fn view(&self) -> Seq<u8> {
        self.bytes@
    }
}

impl DefaultHasher {
    /// A hasher to which nothing has been written.
    pub fn new() -> (h: DefaultHasher)
        ensures
            h@ == Seq::<u8>::empty(),
    {
        DefaultHasher { bytes: Vec::new() }
    }

    /// Appends `bytes` to what has been written so far.
    pub fn write_bytes(&mut self, bytes: &[u8])
        ensures
            final(self)@ == old(self)@ + bytes@,
    {
        let mut i: usize = 0;
        while i < bytes.len()
            invariant
                i <= bytes@.len(),
                self@ == old(self)@ + bytes@.subrange(0, i as int),
            decreases bytes@.len() - i,
        {
            self.bytes.push(bytes[i]);
            i = i + 1;
        }
        assert(bytes@.subrange(0, bytes@.len() as int) =~= bytes@);
    }

    /// The digest of everything written so far.
    pub fn digest(&self) -> (r: u64)
        ensures
            r == rapidhash_v3_of(self@),
    {
        rapidhash_v3_digest(self.bytes.as_slice())
    }
}

impl Default for DefaultHasher {
    fn default() -> (h: DefaultHasher)
        ensures
            h@ == Seq::<u8>::empty(),
    {
        DefaultHasher::new()
    }
}

impl std::hash::Hasher for DefaultHasher {
    fn write(&mut self, bytes: &[u8]) {
        self.write_bytes(bytes);
    }

    fn finish(&self) -> u64 {
        self.digest()
    }
}

/// First multiplier of the avalanche finalizer.
pub const MIX_MUL_1: u64 = 0xff51_afd7_ed55_8ccd;

/// Second multiplier of the avalanche finalizer.
pub const MIX_MUL_2: u64 = 0xc4ce_b9fe_1a85_ec53;

/// One avalanche round: xor with the value shifted right by 33 bits, then
/// multiply (mod 2^64) by `m`.
pub open spec fn xorshift_mul(x: u64, m: u64) -> u64 {
    (x ^ (x >> 33u64)).wrapping_mul(m)
}

/// The affinity of a node digest `a` and a key digest `b`: their xor put
/// through two xorshift-multiply rounds and a last xorshift.
pub open spec fn merge_spec(a: u64, b: u64) -> u64 {
    let d = xorshift_mul(xorshift_mul(a ^ b, MIX_MUL_1), MIX_MUL_2);
    d ^ (d >> 33u64)
}

/// Mixes a node digest with a key digest into one well-distributed value.
pub fn merge(a: u64, b: u64) -> (r: u64)
    ensures
        r == merge_spec(a, b),
{
    let mut distance: u64 = a ^ b;
    distance ^= distance >> 33u64;
    distance = distance.wrapping_mul(MIX_MUL_1);
    distance ^= distance >> 33u64;
    distance = distance.wrapping_mul(MIX_MUL_2);
    distance ^= distance >> 33u64;
    distance
}

} // verus!
