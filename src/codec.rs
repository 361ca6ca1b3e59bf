use vstd::prelude::*;
use crate::hashing::NodeHash;
use crate::undo::{SpentLeaf, UndoRecord};

verus! {

/// Why stored bytes do not decode to an undo record.
#[derive(Debug, Clone, Copy, PartialEq, Eq, Structural)]
pub enum CodecError {
    /// The length does not match the counts in the header.
    BadLength,
    /// A stored position does not fit in a `usize`.
    PositionTooLarge,
}

/// The little-endian `u64` at `off`.
pub open spec fn u64_at(b: Seq<u8>, off: int) -> u64 {
    (b[off] as u64) | ((b[off + 1] as u64) << 8u64) | ((b[off + 2] as u64) << 16u64) | ((b[off
        + 3] as u64) << 24u64) | ((b[off + 4] as u64) << 32u64) | ((b[off + 5] as u64) << 40u64) | ((b[off
        + 6] as u64) << 48u64) | ((b[off + 7] as u64) << 56u64)
}

/// The stored form of an undo record: the number of deletions and of
/// additions as little-endian `u64`s, then each deletion as its position
/// (a `u64`) and hash, then each added hash.
pub open spec fn layout(b: Seq<u8>, ds: Seq<SpentLeaf>, a: Seq<NodeHash>) -> bool {
    &&& b.len() == 16 + 40 * ds.len() + 32 * a.len()
    &&& u64_at(b, 0) == ds.len()
    &&& u64_at(b, 8) == a.len()
    &&& forall|k: int|
        0 <= k < ds.len() ==> u64_at(b, 16 + 40 * k) == #[trigger] ds[k].position && b.subrange(
            24 + 40 * k,
            56 + 40 * k,
        ) == ds[k].hash@
    &&& forall|k: int|
        0 <= k < a.len() ==> b.subrange(16 + 40 * ds.len() + 32 * k, 48 + 40 * ds.len() + 32 * k)
            == (#[trigger] a[k])@
}

/// The header's counts agree with the length.
pub open spec fn length_fits(b: Seq<u8>) -> bool {
    b.len() >= 16 && b.len() == 16 + 40 * u64_at(b, 0) + 32 * u64_at(b, 8)
}

/// The bytes are the stored form of some record.
pub open spec fn decodable(b: Seq<u8>) -> bool {
    &&& length_fits(b)
    &&& forall|k: int| 0 <= k < u64_at(b, 0) ==> #[trigger] u64_at(b, 16 + 40 * k) <= usize::MAX
}

/// Appends `v` as eight little-endian bytes.
fn push_u64(out: &mut Vec<u8>, v: u64)
    ensures
        final(out)@.len() == old(out)@.len() + 8,
        final(out)@.take(old(out)@.len() as int) == old(out)@,
        u64_at(final(out)@, old(out)@.len() as int) == v,
{
    let b0 = (v & 0xff) as u8;
    let b1 = ((v >> 8u64) & 0xff) as u8;
    let b2 = ((v >> 16u64) & 0xff) as u8;
    let b3 = ((v >> 24u64) & 0xff) as u8;
    let b4 = ((v >> 32u64) & 0xff) as u8;
    let b5 = ((v >> 40u64) & 0xff) as u8;
    let b6 = ((v >> 48u64) & 0xff) as u8;
    let b7 = ((v >> 56u64) & 0xff) as u8;
    let ghost n = out@.len();
    let ghost o = out@;
    out.push(b0);
    out.push(b1);
    out.push(b2);
    out.push(b3);
    out.push(b4);
    out.push(b5);
    out.push(b6);
    out.push(b7);
    assert(out@ =~= o + seq![b0, b1, b2, b3, b4, b5, b6, b7]);
    assert(out@.take(n as int) =~= o);
    assert(v == ((((v & 0xff) as u8) as u64) | ((((v >> 8u64) & 0xff) as u8) as u64) << 8u64 | ((((v
        >> 16u64) & 0xff) as u8) as u64) << 16u64 | ((((v >> 24u64) & 0xff) as u8) as u64) << 24u64 | ((((v
        >> 32u64) & 0xff) as u8) as u64) << 32u64 | ((((v >> 40u64) & 0xff) as u8) as u64) << 40u64 | ((((v
        >> 48u64) & 0xff) as u8) as u64) << 48u64 | ((((v >> 56u64) & 0xff) as u8) as u64) << 56u64))
        by (bit_vector);
}

/// Appends the 32 bytes of a hash.
fn push_hash(out: &mut Vec<u8>, h: &NodeHash)
    ensures
        final(out)@ == old(out)@ + h@,
{
    let mut i: usize = 0;
    while i < 32
        invariant
            i <= 32,
            out@ == old(out)@ + h@.take(i as int),
        decreases 32 - i,
    {
        out.push(h[i]);
        i = i + 1;
        assert(out@ =~= old(out)@ + h@.take(i as int));
    }
    assert(h@.take(32) =~= h@);
}

/// Reads the little-endian `u64` at `off`.
fn read_u64(b: &Vec<u8>, off: usize) -> (r: u64)
    requires
        off + 8 <= b@.len(),
    ensures
        r == u64_at(b@, off as int),
{
    let n = b.len();
    assert(off + 8 <= n);
    (b[off] as u64) | ((b[off + 1] as u64) << 8u64) | ((b[off + 2] as u64) << 16u64) | ((b[off
        + 3] as u64) << 24u64) | ((b[off + 4] as u64) << 32u64) | ((b[off + 5] as u64) << 40u64) | ((b[off
        + 6] as u64) << 48u64) | ((b[off + 7] as u64) << 56u64)
}

/// Reads the 32 bytes at `off` as a hash.
fn read_hash(b: &Vec<u8>, off: usize) -> (r: NodeHash)
    requires
        off + 32 <= b@.len(),
    ensures
        r@ == b@.subrange(off as int, off + 32),
{
    let n = b.len();
    assert(off + 32 <= n);
    let mut h: NodeHash = [0u8; 32];
    let mut i: usize = 0;
    while i < 32
        invariant
            i <= 32,
            off + 32 <= b@.len(),
            n == b@.len(),
            forall|j: int| 0 <= j < i ==> h@[j] == b@[off + j],
        decreases 32 - i,
    {
        h[i] = b[off + i];
        i = i + 1;
    }
    assert(h@ =~= b@.subrange(off as int, off + 32));
    h
}

impl UndoRecord {
    /// The stored form of this record.
    pub fn encode(&self) -> (r: Vec<u8>)
        ensures
            layout(r@, self.deleted@, self.added@),
    {
        let mut out: Vec<u8> = Vec::new();
        push_u64(&mut out, self.deleted.len() as u64);
        push_u64(&mut out, self.added.len() as u64);
        let mut k: usize = 0;
        while k < self.deleted.len()
            invariant
                k <= self.deleted@.len(),
                out@.len() == 16 + 40 * k,
                u64_at(out@, 0) == self.deleted@.len(),
                u64_at(out@, 8) == self.added@.len(),
                forall|j: int|
                    0 <= j < k ==> u64_at(out@, 16 + 40 * j) == #[trigger] self.deleted@[j].position
                        && out@.subrange(24 + 40 * j, 56 + 40 * j) == self.deleted@[j].hash@,
            decreases self.deleted.len() - k,
        {
            let ghost o = out@;
            let d = self.deleted[k];
            push_u64(&mut out, d.position as u64);
            let ghost o2 = out@;
            push_hash(&mut out, &d.hash);
            proof {
                assert forall|p: int| 0 <= p < o.len() implies out@[p] == o[p] by {
                    assert(o2.take(o.len() as int)[p] == o[p]);
                }
                assert forall|p: int| 0 <= p < o2.len() implies out@[p] == o2[p] by {}
                assert(u64_at(out@, 0) == u64_at(o, 0));
                assert(u64_at(out@, 8) == u64_at(o, 8));
                assert(u64_at(out@, 16 + 40 * k) == u64_at(o2, 16 + 40 * k));
                assert(out@.subrange(24 + 40 * k, 56 + 40 * k) =~= d.hash@);
                assert forall|j: int|
                    0 <= j < k + 1 implies u64_at(out@, 16 + 40 * j) == #[trigger] self.deleted@[j].position
                    && out@.subrange(24 + 40 * j, 56 + 40 * j) == self.deleted@[j].hash@ by {
                    if j < k {
                        assert(u64_at(out@, 16 + 40 * j) == u64_at(o, 16 + 40 * j));
                        assert(out@.subrange(24 + 40 * j, 56 + 40 * j) =~= o.subrange(24 + 40 * j, 56 + 40 * j));
                    }
                }
            }
            k = k + 1;
        }
        let nd = k;
        assert(nd == self.deleted@.len());
        assert(forall|j: int|
            0 <= j < nd ==> u64_at(out@, 16 + 40 * j) == #[trigger] self.deleted@[j].position
                && out@.subrange(24 + 40 * j, 56 + 40 * j) == self.deleted@[j].hash@);
        let mut i: usize = 0;
        while i < self.added.len()
            invariant
                nd == self.deleted@.len(),
                i <= self.added@.len(),
                out@.len() == 16 + 40 * nd + 32 * i,
                u64_at(out@, 0) == self.deleted@.len(),
                u64_at(out@, 8) == self.added@.len(),
                forall|j: int|
                    0 <= j < nd ==> u64_at(out@, 16 + 40 * j) == #[trigger] self.deleted@[j].position
                        && out@.subrange(24 + 40 * j, 56 + 40 * j) == self.deleted@[j].hash@,
                forall|j: int|
                    0 <= j < i ==> out@.subrange(16 + 40 * nd + 32 * j, 48 + 40 * nd + 32 * j)
                        == (#[trigger] self.added@[j])@,
            decreases self.added.len() - i,
        {
            let ghost o = out@;
            push_hash(&mut out, &self.added[i]);
            proof {
                assert forall|p: int| 0 <= p < o.len() implies out@[p] == o[p] by {}
                assert(u64_at(out@, 0) == u64_at(o, 0));
                assert(u64_at(out@, 8) == u64_at(o, 8));
                assert forall|j: int|
                    0 <= j < nd implies u64_at(out@, 16 + 40 * j) == #[trigger] self.deleted@[j].position
                    && out@.subrange(24 + 40 * j, 56 + 40 * j) == self.deleted@[j].hash@ by {
                    assert(u64_at(out@, 16 + 40 * j) == u64_at(o, 16 + 40 * j));
                    assert(out@.subrange(24 + 40 * j, 56 + 40 * j) =~= o.subrange(24 + 40 * j, 56 + 40 * j));
                }
                assert forall|j: int|
                    0 <= j < i + 1 implies out@.subrange(16 + 40 * nd + 32 * j, 48 + 40 * nd + 32 * j)
                    == (#[trigger] self.added@[j])@ by {
                    if j < i {
                        assert(out@.subrange(16 + 40 * nd + 32 * j, 48 + 40 * nd + 32 * j) =~= o.subrange(
                            16 + 40 * nd + 32 * j,
                            48 + 40 * nd + 32 * j,
                        ));
                    } else {
                        assert(out@.subrange(16 + 40 * nd + 32 * j, 48 + 40 * nd + 32 * j) =~= self.added@[j]@);
                    }
                }
            }
            i = i + 1;
        }
        out
    }

    /// Reads a record back from its stored form.
    pub fn decode(b: &Vec<u8>) -> (r: Result<UndoRecord, CodecError>)
        ensures
            r is Ok <==> decodable(b@),
            r is Ok ==> layout(b@, r->Ok_0.deleted@, r->Ok_0.added@),
            !length_fits(b@) ==> r == Err::<UndoRecord, CodecError>(CodecError::BadLength),
            length_fits(b@) && !decodable(b@) ==> r == Err::<UndoRecord, CodecError>(
                CodecError::PositionTooLarge,
            ),
    {
        let n = b.len();
        if n < 16 {
            return Err(CodecError::BadLength);
        }
        let nd = read_u64(b, 0);
        let na = read_u64(b, 8);
        let total: u128 = 16u128 + 40u128 * (nd as u128) + 32u128 * (na as u128);
        if total != n as u128 {
            return Err(CodecError::BadLength);
        }
        let nd = nd as usize;
        let na = na as usize;
        let mut deleted: Vec<SpentLeaf> = Vec::new();
        let mut k: usize = 0;
        while k < nd
            invariant
                n == b@.len(),
                length_fits(b@),
                nd == u64_at(b@, 0),
                na == u64_at(b@, 8),
                k <= nd,
                deleted@.len() == k,
                forall|j: int| 0 <= j < k ==> #[trigger] u64_at(b@, 16 + 40 * j) <= usize::MAX,
                forall|j: int|
                    0 <= j < k ==> u64_at(b@, 16 + 40 * j) == #[trigger] deleted@[j].position
                        && b@.subrange(24 + 40 * j, 56 + 40 * j) == deleted@[j].hash@,
            decreases nd - k,
        {
            let p = read_u64(b, 16 + 40 * k);
            if p > usize::MAX as u64 {
                return Err(CodecError::PositionTooLarge);
            }
            let hash = read_hash(b, 24 + 40 * k);
            let ghost d0 = deleted@;
            deleted.push(SpentLeaf { position: p as usize, hash });
            proof {
                assert forall|j: int|
                    0 <= j < k + 1 implies u64_at(b@, 16 + 40 * j) == #[trigger] deleted@[j].position
                    && b@.subrange(24 + 40 * j, 56 + 40 * j) == deleted@[j].hash@ by {
                    if j < k {
                        assert(deleted@[j] == d0[j]);
                    }
                }
            }
            k = k + 1;
        }
        let mut added: Vec<NodeHash> = Vec::new();
        let mut i: usize = 0;
        while i < na
            invariant
                n == b@.len(),
                length_fits(b@),
                nd == u64_at(b@, 0),
                na == u64_at(b@, 8),
                i <= na,
                added@.len() == i,
                forall|j: int|
                    0 <= j < i ==> b@.subrange(16 + 40 * nd + 32 * j, 48 + 40 * nd + 32 * j)
                        == (#[trigger] added@[j])@,
            decreases na - i,
        {
            let hash = read_hash(b, 16 + 40 * nd + 32 * i);
            let ghost a0 = added@;
            added.push(hash);
            proof {
                assert forall|j: int|
                    0 <= j < i + 1 implies b@.subrange(16 + 40 * nd + 32 * j, 48 + 40 * nd + 32 * j)
                    == (#[trigger] added@[j])@ by {
                    if j < i {
                        assert(added@[j] == a0[j]);
                    }
                }
            }
            i = i + 1;
        }
        Ok(UndoRecord { deleted, added })
    }
}

/// The stored form of a record decodes, and to that record alone: any record
/// laid out in the same bytes has the same deletions and additions.
pub proof fn lemma_layout_round_trip(
    b: Seq<u8>,
    ds: Seq<SpentLeaf>,
    a: Seq<NodeHash>,
    ds2: Seq<SpentLeaf>,
    a2: Seq<NodeHash>,
)
    requires
        layout(b, ds, a),
        layout(b, ds2, a2),
    ensures
        decodable(b),
        ds2.len() == ds.len(),
        a2.len() == a.len(),
        forall|k: int|
            0 <= k < ds.len() ==> #[trigger] ds2[k].position == ds[k].position && ds2[k].hash@ == ds[k].hash@,
        forall|k: int| 0 <= k < a.len() ==> (#[trigger] a2[k])@ == a[k]@,
{
    assert forall|k: int| 0 <= k < u64_at(b, 0) implies #[trigger] u64_at(b, 16 + 40 * k) <= usize::MAX by {
        assert(u64_at(b, 16 + 40 * k) == ds[k].position);
    }
    assert forall|k: int| 0 <= k < ds.len() implies #[trigger] ds2[k].position == ds[k].position
        && ds2[k].hash@ == ds[k].hash@ by {
        assert(u64_at(b, 16 + 40 * k) == ds[k].position);
        assert(u64_at(b, 16 + 40 * k) == ds2[k].position);
    }
    assert forall|k: int| 0 <= k < a.len() implies (#[trigger] a2[k])@ == a[k]@ by {
        assert(b.subrange(16 + 40 * ds.len() + 32 * k, 48 + 40 * ds.len() + 32 * k) == a[k]@);
    }
}

} // verus!
