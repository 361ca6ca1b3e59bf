use vstd::prelude::*;
use crate::hashing::{NodeHash, same_hash};

verus! {

/// A block header as the chain source reports it.
#[derive(Debug, Clone, Copy)]
pub struct Header {
    pub hash: NodeHash,
    pub prev_hash: NodeHash,
    pub height: usize,
    pub work: u128,
}

/// What accepting a header did to the view.
#[derive(Debug, Clone, Copy, PartialEq, Eq, Structural)]
pub enum ChainEvent {
    /// The header extended the tip.
    Extended,
    /// The header branches off the active chain above the given height, the
    /// last common ancestor.
    ReorgDetected(usize),
}

#[derive(Debug, Clone, Copy, PartialEq, Eq, Structural)]
pub enum ChainError {
    /// The header's parent is not on the active chain within the lookback window.
    NoCommonAncestor,
}

/// The active header chain, from genesis to tip.
#[derive(Debug, Clone)]
pub struct ChainView {
    entries: Vec<Header>,
    lookback: usize,
}

/// Each entry sits at its own height and links to the one below.
pub open spec fn connected(s: Seq<Header>) -> bool {
    &&& forall|i: int| 0 <= i < s.len() ==> #[trigger] s[i].height == i
    &&& forall|i: int| 0 < i < s.len() ==> #[trigger] s[i].prev_hash@ == s[i - 1].hash@
}

/// The header continues the chain `s` at its tip (or starts it, at height 0).
pub open spec fn extends(s: Seq<Header>, h: Header) -> bool {
    if s.len() == 0 {
        h.height == 0
    } else {
        h.height == s.len() && h.prev_hash@ == s.last().hash@
    }
}

/// The header's parent is an entry below the tip, at most `lookback` blocks back.
pub open spec fn forks_off(s: Seq<Header>, h: Header, lookback: nat) -> bool {
    &&& 0 < h.height < s.len()
    &&& s[h.height - 1].hash@ == h.prev_hash@
    &&& s.len() - h.height <= lookback
}

impl View for ChainView {
    type V = Seq<Header>;

    closed spec fn view(&self) -> Seq<Header> {
        self.entries@
    }
}

impl ChainView {
    pub closed spec fn wf(&self) -> bool {
        connected(self.entries@)
    }

    /// How far below the tip a fork point may lie.
    pub closed spec fn window(&self) -> nat {
        self.lookback as nat
    }

    /// An empty view that looks at most `lookback` blocks back for a fork point.
    pub fn new(lookback: usize) -> (r: ChainView)
        ensures
            r.wf(),
            r@ == Seq::<Header>::empty(),
            r.window() == lookback,
    {
        ChainView { entries: Vec::new(), lookback }
    }

    /// The number of headers on the active chain.
    pub fn len(&self) -> (r: usize)
        ensures
            r == self@.len(),
    {
        self.entries.len()
    }

    /// The tip's hash and height, or `None` while the view is empty.
    pub fn current_tip(&self) -> (r: Option<(NodeHash, usize)>)
        ensures
            self@.len() == 0 ==> r is None,
            self@.len() > 0 ==> r == Some((self@.last().hash, self@.last().height)),
    {
        if self.entries.len() == 0 {
            None
        } else {
            let t = self.entries[self.entries.len() - 1];
            Some((t.hash, t.height))
        }
    }

    /// The header at `height` on the active chain.
    pub fn header_at(&self, height: usize) -> (r: Option<Header>)
        ensures
            height < self@.len() ==> r == Some(self@[height as int]),
            height >= self@.len() ==> r is None,
    {
        if height < self.entries.len() {
            Some(self.entries[height])
        } else {
            None
        }
    }

    /// Takes a header from the chain source. One that continues the tip is
    /// appended; one whose parent lies below the tip, within the window, reports
    /// the fork point and leaves the view as it is; any other is refused.
    pub fn accept_header(&mut self, h: Header) -> (r: Result<ChainEvent, ChainError>)
        requires
            old(self).wf(),
        ensures
            final(self).wf(),
            final(self).window() == old(self).window(),
            extends(old(self)@, h) ==> r == Ok::<ChainEvent, ChainError>(ChainEvent::Extended)
                && final(self)@ == old(self)@.push(h),
            !extends(old(self)@, h) && forks_off(old(self)@, h, old(self).window()) ==> r == Ok::<
                ChainEvent,
                ChainError,
            >(ChainEvent::ReorgDetected((h.height - 1) as usize)) && final(self)@ == old(self)@,
            !extends(old(self)@, h) && !forks_off(old(self)@, h, old(self).window()) ==> r == Err::<
                ChainEvent,
                ChainError,
            >(ChainError::NoCommonAncestor) && final(self)@ == old(self)@,
    {
        let n = self.entries.len();
        if n == 0 {
            if h.height == 0 {
                self.entries.push(h);
                return Ok(ChainEvent::Extended);
            }
            return Err(ChainError::NoCommonAncestor);
        }
        if h.height == n && same_hash(&h.prev_hash, &self.entries[n - 1].hash) {
            let ghost s = self.entries@;
            self.entries.push(h);
            assert forall|i: int| 0 < i < self.entries@.len() implies #[trigger] self.entries@[i].prev_hash@
                == self.entries@[i - 1].hash@ by {
                if i < n {
                    assert(s[i].prev_hash@ == s[i - 1].hash@);
                }
            }
            return Ok(ChainEvent::Extended);
        }
        if 0 < h.height && h.height < n && n - h.height <= self.lookback && same_hash(
            &self.entries[h.height - 1].hash,
            &h.prev_hash,
        ) {
            return Ok(ChainEvent::ReorgDetected(h.height - 1));
        }
        Err(ChainError::NoCommonAncestor)
    }

    /// What accepting `h` would do, without doing it.
    pub fn classify(&self, h: &Header) -> (r: Result<ChainEvent, ChainError>)
        requires
            self.wf(),
        ensures
            extends(self@, *h) ==> r == Ok::<ChainEvent, ChainError>(ChainEvent::Extended),
            !extends(self@, *h) && forks_off(self@, *h, self.window()) ==> r == Ok::<
                ChainEvent,
                ChainError,
            >(ChainEvent::ReorgDetected((h.height - 1) as usize)),
            !extends(self@, *h) && !forks_off(self@, *h, self.window()) ==> r == Err::<
                ChainEvent,
                ChainError,
            >(ChainError::NoCommonAncestor),
    {
        let n = self.entries.len();
        if self.continues(h) {
            return Ok(ChainEvent::Extended);
        }
        if 0 < h.height && h.height < n && n - h.height <= self.lookback && same_hash(
            &self.entries[h.height - 1].hash,
            &h.prev_hash,
        ) {
            return Ok(ChainEvent::ReorgDetected(h.height - 1));
        }
        Err(ChainError::NoCommonAncestor)
    }

    /// Whether `h` continues the chain at its tip.
    pub fn continues(&self, h: &Header) -> (r: bool)
        ensures
            r == extends(self@, *h),
    {
        let n = self.entries.len();
        if n == 0 {
            h.height == 0
        } else {
            h.height == n && same_hash(&h.prev_hash, &self.entries[n - 1].hash)
        }
    }

    /// Drops every header above `fork`, so that `fork` becomes the tip.
    pub fn rewind_to(&mut self, fork: usize)
        requires
            old(self).wf(),
            fork < old(self)@.len(),
        ensures
            final(self).wf(),
            final(self).window() == old(self).window(),
            final(self)@ == old(self)@.take(fork + 1),
    {
        let n = self.entries.len();
        assert(fork < n);
        self.entries.truncate(fork + 1);
    }
}

} // verus!
