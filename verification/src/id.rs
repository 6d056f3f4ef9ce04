use vstd::prelude::*;

verus! {

/// Identity of a node across a whole mesh.
#[derive(Clone, Copy, PartialEq, Eq, Hash, Debug, Structural)]
pub struct GlobalId(u64);

impl View for GlobalId {
    type V = u64;

    closed spec fn view(&self) -> u64 {
        self.0
    }
}

/// The counter that hands out identities. Every identity it hands out is
/// one more (wrapping) than the one before.
pub struct IdSource {
    next: u64,
}

impl View for IdSource {
    type V = u64;

    /// The identity that the next call hands out.
    closed spec fn view(&self) -> u64 {
        self.next
    }
}

/// The successor of a counter value, wrapping at `u64::MAX`.
pub open spec fn next_count(n: u64) -> u64 {
    if n == u64::MAX { 0 } else { (n + 1) as u64 }
}

impl IdSource {
    pub fn new() -> (s: Self)
        ensures
            s@ == 0,
    {
        IdSource { next: 0 }
    }

    /// Hands out the current counter value and advances the counter.
    pub fn fetch_next(&mut self) -> (n: u64)
        ensures
            n == old(self)@,
            final(self)@ == next_count(old(self)@),
    {
        let n = self.next;
        self.next = self.next.wrapping_add(1);
        n
    }
}

impl GlobalId {
    /// A fresh identity, drawn from `ids`.
    pub fn new(ids: &mut IdSource) -> (id: Self)
        ensures
            id@ == old(ids)@,
            final(ids)@ == next_count(old(ids)@),
    {
        GlobalId(ids.fetch_next())
    }

    /// The identity with this raw value.
    pub fn from_raw(raw: u64) -> (id: Self)
        ensures
            id@ == raw,
    {
        GlobalId(raw)
    }

    pub fn raw(&self) -> (r: u64)
        ensures
            r == self@,
    {
        self.0
    }
}

/// The counter value after `k` draws from a counter at `start`.
pub open spec fn count_after(start: u64, k: nat) -> u64
    decreases k,
{
    if k == 0 {
        start
    } else {
        next_count(count_after(start, (k - 1) as nat))
    }
}

proof fn lemma_count_after_wraps(start: u64, k: nat)
    ensures
        count_after(start, k) == (start + k) % 0x1_0000_0000_0000_0000,
    decreases k,
{
    if k > 0 {
        lemma_count_after_wraps(start, (k - 1) as nat);
        let prev = count_after(start, (k - 1) as nat);
        assert(next_count(prev) == (prev + 1) % 0x1_0000_0000_0000_0000);
        assert((((start + k - 1) % 0x1_0000_0000_0000_0000) + 1) % 0x1_0000_0000_0000_0000 == (start + k)
            % 0x1_0000_0000_0000_0000) by (nonlinear_arith);
    }
}

/// Identities drawn from one source are distinct: draw `i` and draw `j`
/// differ whenever fewer than 2^64 draws lie between them, that is until
/// the counter has wrapped all the way round.
pub proof fn lemma_draws_distinct(start: u64, i: nat, j: nat)
    requires
        i < j < i + 0x1_0000_0000_0000_0000,
    ensures
        count_after(start, i) != count_after(start, j),
{
    lemma_count_after_wraps(start, i);
    lemma_count_after_wraps(start, j);
    assert((start + i) % 0x1_0000_0000_0000_0000 != (start + j) % 0x1_0000_0000_0000_0000) by (nonlinear_arith)
        requires
            i < j < i + 0x1_0000_0000_0000_0000,
    ;
}

} // verus!
