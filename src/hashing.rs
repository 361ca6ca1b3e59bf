use vstd::prelude::*;
use bitcoincore_rpc::bitcoin::hashes::sha256;
use bitcoincore_rpc::bitcoin::hashes::Hash as HashTrait;

verus! {

/// A 32-byte digest: a leaf commitment or an interior node of the forest.
pub type NodeHash = [u8; 32];

/// The SHA-256 digest of a byte string.
pub uninterp spec fn sha256_of(data: Seq<u8>) -> Seq<u8>;

/// Relies on bitcoin_hashes' `sha256::Hash::hash`: the SHA-256 digest of the
/// bytes, handed back as its 32-byte array.
#[verifier::external_body]
fn sha256(data: &Vec<u8>) -> (r: NodeHash)
    ensures
        r@ == sha256_of(data@),
{
    let digest = <sha256::Hash as HashTrait>::hash(data.as_slice());
    <sha256::Hash as HashTrait>::to_byte_array(digest)
}

/// The hash of an interior node: the digest of the left child's bytes followed
/// by the right child's.
pub open spec fn parent_hash(l: Seq<u8>, r: Seq<u8>) -> Seq<u8> {
    sha256_of(l + r)
}

/// Hashes two children into their parent; the order of the children matters.
pub fn hash_pair(l: &NodeHash, r: &NodeHash) -> (h: NodeHash)
    ensures
        h@ == parent_hash(l@, r@),
{
    let mut data: Vec<u8> = Vec::new();
    let mut i: usize = 0;
    while i < 32
        invariant
            i <= 32,
            data@ == l@.take(i as int),
        decreases 32 - i,
    {
        data.push(l[i]);
        i = i + 1;
        assert(data@ =~= l@.take(i as int));
    }
    let mut j: usize = 0;
    while j < 32
        invariant
            j <= 32,
            data@ == l@ + r@.take(j as int),
        decreases 32 - j,
    {
        data.push(r[j]);
        j = j + 1;
        assert(data@ =~= l@ + r@.take(j as int));
    }
    assert(l@.take(32) =~= l@);
    assert(r@.take(32) =~= r@);
    sha256(&data)
}

/// Byte-wise equality of two digests.
pub fn same_hash(a: &NodeHash, b: &NodeHash) -> (r: bool)
    ensures
        r == (a@ == b@),
{
    let mut i: usize = 0;
    while i < 32
        invariant
            i <= 32,
            forall|k: int| 0 <= k < i ==> a@[k] == b@[k],
        decreases 32 - i,
    {
        if a[i] != b[i] {
            return false;
        }
        i = i + 1;
    }
    assert(a@ =~= b@);
    true
}

/// The four little-endian bytes of `v`.
pub open spec fn u32_le(v: u32) -> Seq<u8> {
    seq![
        (v % 256) as u8,
        ((v / 256) % 256) as u8,
        ((v / 65536) % 256) as u8,
        ((v / 16777216) % 256) as u8,
    ]
}

/// The leaf hash that commits to an output: the digest of its transaction id
/// followed by its output index in little-endian order.
pub fn leaf_commitment(txid: &NodeHash, vout: u32) -> (h: NodeHash)
    ensures
        h@ == sha256_of(txid@ + u32_le(vout)),
{
    let mut data: Vec<u8> = Vec::new();
    let mut i: usize = 0;
    while i < 32
        invariant
            i <= 32,
            data@ == txid@.take(i as int),
        decreases 32 - i,
    {
        data.push(txid[i]);
        i = i + 1;
        assert(data@ =~= txid@.take(i as int));
    }
    data.push((vout % 256) as u8);
    data.push(((vout / 256) % 256) as u8);
    data.push(((vout / 65536) % 256) as u8);
    data.push(((vout / 16777216) % 256) as u8);
    assert(txid@.take(32) =~= txid@);
    assert(data@ =~= txid@ + u32_le(vout));
    sha256(&data)
}

} // verus!
