use vstd::prelude::*;
use std::collections::HashMap;

verus! {

broadcast use vstd::std_specs::hash::group_hash_axioms;

/// Free buffers beyond this many per size class are handed back to be
/// destroyed instead of kept.
pub const MAX_FREE_PER_CLASS: usize = 8;

/// `n` is a power of two.
pub open spec fn is_pow2(n: int) -> bool
    decreases n,
{
    if n <= 0 {
        false
    } else if n == 1 {
        true
    } else {
        n % 2 == 0 && is_pow2(n / 2)
    }
}

/// The size class of a request: the smallest power of two that is at least
/// `bytes` (1 for 0).
pub fn size_class(bytes: u64) -> (r: u64)
    requires
        bytes <= 0x8000_0000_0000_0000,
    ensures
        is_pow2(r as int),
        r >= bytes,
        r == 1 || (r / 2) < bytes,
{
    let mut p: u64 = 1;
    while p < bytes
        invariant
            p >= 1,
            is_pow2(p as int),
            p == 1 || (p / 2) < bytes,
            bytes <= 0x8000_0000_0000_0000,
        decreases u64::MAX - p,
    {
        assert(is_pow2((p * 2) as int)) by {
            assert((p * 2) as int / 2 == p as int);
        }
        p = p * 2;
    }
    p
}

/// The size class is the least power of two that holds the request: no
/// power of two between the request and the class.
pub proof fn lemma_size_class_is_least(bytes: int, class: int, other: int)
    requires
        is_pow2(class),
        class >= bytes,
        class == 1 || class / 2 < bytes,
        is_pow2(other),
        other >= bytes,
    ensures
        class <= other,
    decreases other,
{
    if other < class {
        // class > other >= 1, so class >= 2 and class / 2 < bytes <= other.
        lemma_pow2_halves(class);
        lemma_pow2_between(other, class);
    }
}

/// Halving a power of two above one gives a power of two.
proof fn lemma_pow2_halves(n: int)
    requires
        is_pow2(n),
        n > 1,
    ensures
        is_pow2(n / 2),
        n == 2 * (n / 2),
{
}

/// A power of two below another one is at most half of it.
proof fn lemma_pow2_between(small: int, big: int)
    requires
        is_pow2(small),
        is_pow2(big),
        small < big,
    ensures
        small <= big / 2,
    decreases big,
{
    if small > 1 {
        lemma_pow2_halves(small);
        lemma_pow2_halves(big);
        lemma_pow2_between(small / 2, big / 2);
    }
}

/// Free buffers kept for reuse, bucketed by a size key.
pub struct BufferPool<Buf> {
    free_blocks: HashMap<u64, Vec<Buf>>,
}

/// The pool after `buf` is handed back under `key`: kept when the bucket has
/// room, otherwise the pool stays as it is.
pub open spec fn recycled<Buf>(m: Map<u64, Seq<Buf>>, key: u64, buf: Buf) -> Map<u64, Seq<Buf>> {
    if m[key].len() < MAX_FREE_PER_CLASS {
        m.insert(key, m[key].push(buf))
    } else {
        m
    }
}

/// The pool after a buffer is taken from the bucket of `key`.
pub open spec fn taken<Buf>(m: Map<u64, Seq<Buf>>, key: u64) -> Map<u64, Seq<Buf>> {
    if m[key].len() > 0 {
        m.insert(key, m[key].drop_last())
    } else {
        m
    }
}

/// The buffer a take from the bucket of `key` returns: the one handed back
/// last.
pub open spec fn take_result<Buf>(m: Map<u64, Seq<Buf>>, key: u64) -> Option<Buf> {
    if m[key].len() > 0 {
        Some(m[key].last())
    } else {
        None
    }
}

/// Every bucket keeps at most `MAX_FREE_PER_CLASS` buffers.
pub open spec fn buckets_bounded<Buf>(m: Map<u64, Seq<Buf>>) -> bool {
    forall|k: u64| #[trigger] m[k].len() <= MAX_FREE_PER_CLASS
}

impl<Buf> BufferPool<Buf> {
    /// The buffers of one bucket, oldest first.
    pub closed spec fn bucket(&self, key: u64) -> Seq<Buf> {
        if self.free_blocks@.contains_key(key) {
            self.free_blocks@[key]@
        } else {
            Seq::empty()
        }
    }

    /// Every size key mapped to its bucket (empty for keys never used).
    pub closed spec fn buckets(&self) -> Map<u64, Seq<Buf>> {
        Map::new(|k: u64| true, |k: u64| self.bucket(k))
    }

    /// Every bucket keeps at most `MAX_FREE_PER_CLASS` buffers.
    #[verifier::type_invariant]
    pub closed spec fn wf(&self) -> bool {
        forall|k: u64| #[trigger] self.bucket(k).len() <= MAX_FREE_PER_CLASS
    }

    /// A well-formed pool keeps at most `MAX_FREE_PER_CLASS` buffers in
    /// every bucket.
    pub proof fn lemma_wf_bounded(&self)
        requires
            self.wf(),
        ensures
            buckets_bounded(self.buckets()),
    {
        assert forall|k: u64| #[trigger] self.buckets()[k].len() <= MAX_FREE_PER_CLASS by {
            assert(self.buckets()[k] == self.bucket(k));
        }
    }

    pub fn new() -> (p: Self)
        ensures
            p.wf(),
            forall|k: u64| #[trigger] p.buckets()[k] == Seq::<Buf>::empty(),
    {
        let p = BufferPool { free_blocks: HashMap::new() };
        assert forall|k: u64| #[trigger] p.buckets()[k] == Seq::<Buf>::empty() by {
            assert(p.buckets()[k] == p.bucket(k));
        }
        p
    }

    /// Takes the buffer handed back last under `key`, if there is one.
    pub fn take(&mut self, key: u64) -> (r: Option<Buf>)
        ensures
            r == take_result(old(self).buckets(), key),
            final(self).buckets() == taken(old(self).buckets(), key),
    {
        proof {
            use_type_invariant(&*self);
        }
        let ghost before = self.buckets();
        let ghost old_pool = *self;
        let mut pool = BufferPool { free_blocks: HashMap::new() };
        std::mem::swap(self, &mut pool);
        let BufferPool { mut free_blocks } = pool;
        let r = match free_blocks.remove(&key) {
            None => None,
            Some(mut bucket) => {
                let r = bucket.pop();
                free_blocks.insert(key, bucket);
                r
            },
        };
        let ghost new_pool = BufferPool { free_blocks };
        proof {
            assert forall|k: u64| #[trigger] new_pool.bucket(k).len() <= MAX_FREE_PER_CLASS by {
                if k != key {
                    assert(new_pool.bucket(k) == old_pool.bucket(k));
                } else if old_pool.bucket(k).len() > 0 {
                    assert(new_pool.bucket(k) =~= old_pool.bucket(k).drop_last());
                }
            }
        }
        *self = BufferPool { free_blocks };
        proof {
            assert(before[key] == old(self).bucket(key));
            assert forall|k: u64| k != key implies #[trigger] self.bucket(k) == old(self).bucket(k) by {}
            if before[key].len() > 0 {
                assert(self.bucket(key) =~= before[key].drop_last());
            } else {
                assert(self.bucket(key) =~= before[key]);
            }
            assert(self.buckets() =~= taken(before, key)) by {
                assert forall|k: u64| #[trigger] self.buckets()[k] == taken(before, key)[k] by {
                    assert(self.buckets()[k] == self.bucket(k));
                    assert(before[k] == old(self).bucket(k));
                }
            }
            assert forall|k: u64| #[trigger] self.bucket(k).len() <= MAX_FREE_PER_CLASS by {
                if k != key {
                    assert(self.bucket(k) == old(self).bucket(k));
                }
            }
        }
        r
    }

    /// Hands `buf` back under `key`. A full bucket keeps nothing more: the
    /// buffer is returned to the caller to be destroyed.
    pub fn recycle(&mut self, key: u64, buf: Buf) -> (evicted: Option<Buf>)
        ensures
            final(self).buckets() == recycled(old(self).buckets(), key, buf),
            evicted == (if old(self).buckets()[key].len() < MAX_FREE_PER_CLASS {
                None
            } else {
                Some(buf)
            }),
    {
        proof {
            use_type_invariant(&*self);
        }
        let ghost before = self.buckets();
        let ghost old_pool = *self;
        let mut pool = BufferPool { free_blocks: HashMap::new() };
        std::mem::swap(self, &mut pool);
        let BufferPool { mut free_blocks } = pool;
        let mut bucket = match free_blocks.remove(&key) {
            None => Vec::new(),
            Some(b) => b,
        };
        let evicted = if bucket.len() >= MAX_FREE_PER_CLASS {
            Some(buf)
        } else {
            bucket.push(buf);
            None
        };
        free_blocks.insert(key, bucket);
        let ghost new_pool = BufferPool { free_blocks };
        proof {
            assert forall|k: u64| #[trigger] new_pool.bucket(k).len() <= MAX_FREE_PER_CLASS by {
                if k != key {
                    assert(new_pool.bucket(k) == old_pool.bucket(k));
                } else {
                    assert(old_pool.wf());
                    assert(old_pool.bucket(key).len() <= MAX_FREE_PER_CLASS);
                    assert(new_pool.bucket(key) == bucket@);
                }
            }
        }
        *self = BufferPool { free_blocks };
        proof {
            assert(before[key] == old(self).bucket(key));
            assert forall|k: u64| k != key implies #[trigger] self.bucket(k) == old(self).bucket(k) by {}
            assert(self.buckets() =~= recycled(before, key, buf)) by {
                assert forall|k: u64| #[trigger] self.buckets()[k] == recycled(before, key, buf)[k] by {
                    assert(self.buckets()[k] == self.bucket(k));
                    assert(before[k] == old(self).bucket(k));
                }
            }
            assert forall|k: u64| #[trigger] self.bucket(k).len() <= MAX_FREE_PER_CLASS by {
                if k != key {
                    assert(self.bucket(k) == old(self).bucket(k));
                }
            }
        }
        evicted
    }
}

/// A buffer handed back to a bucket with room is the one the next take
/// under the same key returns, and that take leaves the pool as it was
/// before the hand-back.
pub proof fn lemma_take_returns_recycled<Buf>(m: Map<u64, Seq<Buf>>, key: u64, buf: Buf)
    requires
        m.dom().contains(key),
        m[key].len() < MAX_FREE_PER_CLASS,
    ensures
        take_result(recycled(m, key, buf), key) == Some(buf),
        taken(recycled(m, key, buf), key) == m,
{
    let after = recycled(m, key, buf);
    assert(after[key] == m[key].push(buf));
    assert(after[key].drop_last() =~= m[key]);
    assert(taken(after, key) =~= m);
}

/// Buckets of other keys are not touched by a hand-back or a take.
pub proof fn lemma_other_buckets_untouched<Buf>(m: Map<u64, Seq<Buf>>, key: u64, other: u64, buf: Buf)
    requires
        other != key,
    ensures
        recycled(m, key, buf)[other] == m[other],
        taken(m, key)[other] == m[other],
{
}

/// No sequence of hand-backs and takes lets a bucket grow past the cap.
pub proof fn lemma_buckets_stay_bounded<Buf>(m: Map<u64, Seq<Buf>>, key: u64, buf: Buf)
    requires
        buckets_bounded(m),
    ensures
        buckets_bounded(recycled(m, key, buf)),
        buckets_bounded(taken(m, key)),
{
    let r = recycled(m, key, buf);
    let t = taken(m, key);
    assert forall|k: u64| #[trigger] r[k].len() <= MAX_FREE_PER_CLASS by {
        if k != key {
            assert(r[k] == m[k]);
        }
    }
    assert forall|k: u64| #[trigger] t[k].len() <= MAX_FREE_PER_CLASS by {
        if k != key {
            assert(t[k] == m[k]);
        }
    }
}

} // verus!
