use vstd::prelude::*;
use crate::hashing::{NodeHash, same_hash};

verus! {

/// Where a block's bytes lie: which flat file, from which byte, how many.
#[derive(Debug, Clone, Copy, PartialEq, Eq, Structural)]
pub struct Location {
    pub file_id: usize,
    pub offset: usize,
    pub length: usize,
}

#[derive(Debug, Clone, Copy, PartialEq, Eq, Structural)]
pub enum StoreError {
    /// No block with that hash was stored.
    NotFound,
    /// No further flat file can be numbered.
    OutOfFiles,
}

/// One block of the index: its hash and where its bytes lie.
#[derive(Debug, Clone, Copy)]
pub struct IndexEntry {
    pub hash: NodeHash,
    pub location: Location,
}

/// The block index: append-only placement of blocks in flat files that rotate
/// once the active one would pass the size threshold.
#[derive(Debug, Clone)]
pub struct BlockIndex {
    entries: Vec<IndexEntry>,
    active_file: usize,
    active_size: usize,
    file_limit: usize,
}

/// The location of the first entry with hash `h`.
pub open spec fn lookup(s: Seq<IndexEntry>, h: Seq<u8>) -> Option<Location>
    decreases s.len(),
{
    if s.len() == 0 {
        None
    } else if s[0].hash@ == h {
        Some(s[0].location)
    } else {
        lookup(s.drop_first(), h)
    }
}

/// Where the next block of `len` bytes goes: at the end of the active file, or
/// at the start of a new one when it would pass the limit of a non-empty file.
pub open spec fn next_location(file: nat, size: nat, limit: nat, len: nat) -> (nat, nat) {
    if size > 0 && size + len > limit {
        (file + 1, 0)
    } else {
        (file, size)
    }
}

impl View for BlockIndex {
    type V = Seq<IndexEntry>;

    closed spec fn view(&self) -> Seq<IndexEntry> {
        self.entries@
    }
}

impl BlockIndex {
    pub closed spec fn active_file(&self) -> nat {
        self.active_file as nat
    }

    pub closed spec fn active_size(&self) -> nat {
        self.active_size as nat
    }

    pub closed spec fn limit(&self) -> nat {
        self.file_limit as nat
    }

    /// An empty index whose files rotate at `file_limit` bytes.
    pub fn new(file_limit: usize) -> (r: BlockIndex)
        ensures
            r@ == Seq::<IndexEntry>::empty(),
            r.active_file() == 0,
            r.active_size() == 0,
            r.limit() == file_limit,
    {
        BlockIndex { entries: Vec::new(), active_file: 0, active_size: 0, file_limit }
    }

    /// The location of the block `hash`.
    pub fn get(&self, hash: &NodeHash) -> (r: Result<Location, StoreError>)
        ensures
            lookup(self@, hash@) is Some ==> r == Ok::<Location, StoreError>(lookup(self@, hash@)->Some_0),
            lookup(self@, hash@) is None ==> r == Err::<Location, StoreError>(StoreError::NotFound),
    {
        let mut i: usize = 0;
        assert(self@.skip(0) =~= self@);
        while i < self.entries.len()
            invariant
                i <= self.entries@.len(),
                lookup(self@, hash@) == lookup(self@.skip(i as int), hash@),
            decreases self.entries.len() - i,
        {
            assert(self@.skip(i as int).drop_first() =~= self@.skip(i + 1));
            if same_hash(&self.entries[i].hash, hash) {
                return Ok(self.entries[i].location);
            }
            i = i + 1;
        }
        Err(StoreError::NotFound)
    }

    /// Places a block of `len` bytes. A hash already stored keeps the place it
    /// has; a new one is appended to the active file, or starts the next file
    /// when the active one is not empty and would pass the limit.
    pub fn put(&mut self, hash: NodeHash, len: usize) -> (r: Result<Location, StoreError>)
        ensures
            lookup(old(self)@, hash@) is Some ==> r == Ok::<Location, StoreError>(
                lookup(old(self)@, hash@)->Some_0,
            ) && *final(self) == *old(self),
            lookup(old(self)@, hash@) is None && r is Ok ==> {
                let (f, o) = next_location(
                    old(self).active_file(),
                    old(self).active_size(),
                    old(self).limit(),
                    len as nat,
                );
                &&& r->Ok_0 == Location { file_id: f as usize, offset: o as usize, length: len }
                &&& f == r->Ok_0.file_id && o == r->Ok_0.offset
                &&& final(self)@ == old(self)@.push(IndexEntry { hash, location: r->Ok_0 })
                &&& final(self).active_file() == f
                &&& final(self).active_size() == o + len
                &&& final(self).limit() == old(self).limit()
            },
            lookup(old(self)@, hash@) is None ==> {
                let (f, o) = next_location(
                    old(self).active_file(),
                    old(self).active_size(),
                    old(self).limit(),
                    len as nat,
                );
                r is Err <==> f + o + len > usize::MAX
            },
            r is Err ==> r->Err_0 == StoreError::OutOfFiles && *final(self) == *old(self),
    {
        if let Ok(loc) = self.get(&hash) {
            return Ok(loc);
        }
        let rotate = self.active_size > 0 && (self.active_size > self.file_limit || len > self.file_limit
            - self.active_size);
        let (file, offset) = if rotate {
            if self.active_file == usize::MAX {
                return Err(StoreError::OutOfFiles);
            }
            (self.active_file + 1, 0usize)
        } else {
            (self.active_file, self.active_size)
        };
        if offset > usize::MAX - len || file > usize::MAX - offset - len {
            return Err(StoreError::OutOfFiles);
        }
        let loc = Location { file_id: file, offset, length: len };
        self.entries.push(IndexEntry { hash, location: loc });
        self.active_file = file;
        self.active_size = offset + len;
        Ok(loc)
    }
}

} // verus!
