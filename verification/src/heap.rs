//! Heap allocator shim. The module expects an `allocate`/`free` pair backed
//! by one contiguous region claimed at boot. The model accounts for the
//! region's space and the set of live blocks by handle; placing a block at a
//! machine address is the hardware side's concern. Exhaustion is a
//! recoverable failure, never an abort.

use vstd::prelude::*;

verus! {

use crate::errors::KError;

/// Total size, in bytes, of a sequence of live blocks.
pub open spec fn sum_sizes(s: Seq<(u64, usize)>) -> int
    decreases s.len(),
{
    if s.len() == 0 {
        0
    } else {
        s[0].1 + sum_sizes(s.drop_first())
    }
}

proof fn lemma_sum_push(s: Seq<(u64, usize)>, x: (u64, usize))
    ensures
        sum_sizes(s.push(x)) == sum_sizes(s) + x.1,
    decreases s.len(),
{
    if s.len() == 0 {
        assert(s.push(x).drop_first() =~= Seq::<(u64, usize)>::empty());
        assert(sum_sizes(Seq::<(u64, usize)>::empty()) == 0);
        assert(s.push(x)[0] == x);
    } else {
        assert(s.push(x).drop_first() =~= s.drop_first().push(x));
        lemma_sum_push(s.drop_first(), x);
    }
}

proof fn lemma_sum_remove(s: Seq<(u64, usize)>, i: int)
    requires
        0 <= i < s.len(),
    ensures
        sum_sizes(s.remove(i)) == sum_sizes(s) - s[i].1,
    decreases i,
{
    if i == 0 {
        assert(s.remove(0) =~= s.drop_first());
    } else {
        assert(s.remove(i).drop_first() =~= s.drop_first().remove(i - 1));
        lemma_sum_remove(s.drop_first(), i - 1);
    }
}

proof fn lemma_sum_nonneg(s: Seq<(u64, usize)>)
    ensures
        sum_sizes(s) >= 0,
    decreases s.len(),
{
    if s.len() > 0 {
        lemma_sum_nonneg(s.drop_first());
    }
}

/// The single boot-time heap region, tracked as used space plus the live
/// blocks `(handle, size)` in allocation order.
pub struct Heap {
    /// Size of the backing region, in bytes.
    pub capacity: usize,
    /// Bytes currently allocated.
    pub used: usize,
    /// Next handle to hand out; handles are never reused.
    pub next_id: u64,
    /// Live blocks, as `(handle, size)`.
    pub blocks: Vec<(u64, usize)>,
}

impl Heap {
    /// Space accounting matches the live blocks, fits the region, and
    /// handles are distinct and below `next_id`.
    pub open spec fn wf(self) -> bool {
        &&& self.used == sum_sizes(self.blocks@)
        &&& self.used <= self.capacity
        &&& forall|k: int|
            0 <= k < self.blocks@.len() ==> (#[trigger] self.blocks@[k]).0 < self.next_id
        &&& forall|k1: int, k2: int|
            0 <= k1 < k2 < self.blocks@.len() ==> (#[trigger] self.blocks@[k1]).0 != (
            #[trigger] self.blocks@[k2]).0
    }

    /// `id` names a live block.
    pub open spec fn has_block(self, id: u64) -> bool {
        exists|k: int| 0 <= k < self.blocks@.len() && (#[trigger] self.blocks@[k]).0 == id
    }

    /// Size of the live block named `id`.
    pub open spec fn block_size(self, id: u64) -> int {
        let k = choose|k: int| 0 <= k < self.blocks@.len() && (#[trigger] self.blocks@[k]).0 == id;
        self.blocks@[k].1 as int
    }

    /// Claim a region of `capacity` bytes with no blocks allocated.
    pub fn new(capacity: usize) -> (r: Heap)
        ensures
            r.wf(),
            r.capacity == capacity,
            r.used == 0,
            r.blocks@.len() == 0,
    {
        Heap { capacity, used: 0, next_id: 0, blocks: Vec::new() }
    }

    /// Allocate `size` bytes aligned to `align`. Succeeds exactly when the
    /// request is sane and fits in the remaining space; failure leaves the
    /// heap unchanged and is recoverable.
    pub fn allocate(&mut self, size: usize, align: usize) -> (r: Option<u64>)
        requires
            old(self).wf(),
        ensures
            final(self).wf(),
            final(self).capacity == old(self).capacity,
            r is Some <==> (align >= 1 && old(self).used + size <= old(self).capacity && old(
                self,
            ).next_id < u64::MAX),
            r is Some ==> {
                &&& r == Some(old(self).next_id)
                &&& !old(self).has_block(old(self).next_id)
                &&& final(self).used == old(self).used + size
                &&& final(self).blocks@ == old(self).blocks@.push((old(self).next_id, size))
                &&& final(self).next_id == old(self).next_id + 1
                &&& forall|id: u64|
                    final(self).has_block(id) <==> (old(self).has_block(id) || id == old(
                        self,
                    ).next_id)
            },
            r is None ==> *final(self) == *old(self),
    {
        if align == 0 || self.next_id == u64::MAX {
            return None;
        }
        if size > self.capacity - self.used {
            return None;
        }
        let id = self.next_id;
        proof {
            lemma_sum_push(self.blocks@, (id, size));
            if self.has_block(id) {
                let k = choose|k: int|
                    0 <= k < self.blocks@.len() && (#[trigger] self.blocks@[k]).0 == id;
                assert(self.blocks@[k].0 < self.next_id);
            }
        }
        let ghost pre = self.blocks@;
        self.blocks.push((id, size));
        self.used = self.used + size;
        self.next_id = self.next_id + 1;
        proof {
            assert forall|id2: u64| #[trigger] self.has_block(id2) implies (old(self).has_block(
                id2,
            ) || id2 == id) by {
                let k = choose|k: int|
                    0 <= k < self.blocks@.len() && (#[trigger] self.blocks@[k]).0 == id2;
                if k < pre.len() {
                    assert(pre[k].0 == id2);
                } else {
                    assert(self.blocks@[k] == (id, size));
                }
            }
            assert forall|id2: u64| (old(self).has_block(id2) || id2 == id) implies self.has_block(
                id2,
            ) by {
                if old(self).has_block(id2) {
                    let k = choose|k: int|
                        0 <= k < pre.len() && (#[trigger] pre[k]).0 == id2;
                    assert(self.blocks@[k].0 == id2);
                } else {
                    assert(self.blocks@[pre.len() as int].0 == id2);
                }
            }
        }
        Some(id)
    }

    /// Release the block named `id`. Freeing a handle that is not live is a
    /// contract violation and changes nothing.
    pub fn free(&mut self, id: u64) -> (r: Result<(), KError>)
        requires
            old(self).wf(),
        ensures
            final(self).wf(),
            final(self).capacity == old(self).capacity,
            final(self).next_id == old(self).next_id,
            r is Ok <==> old(self).has_block(id),
            r is Ok ==> {
                &&& final(self).used == old(self).used - old(self).block_size(id)
                &&& forall|id2: u64|
                    final(self).has_block(id2) <==> (old(self).has_block(id2) && id2 != id)
            },
            r is Err ==> *final(self) == *old(self) && r == Result::<(), KError>::Err(
                KError::InvalidHandle,
            ),
    {
        let n = self.blocks.len();
        let mut k: usize = 0;
        while k < n && self.blocks[k].0 != id
            invariant
                n == self.blocks@.len(),
                k <= n,
                forall|j: int| 0 <= j < k ==> (#[trigger] self.blocks@[j]).0 != id,
            decreases n - k,
        {
            k = k + 1;
        }
        if k < n {
            let (_, size) = self.blocks[k];
                proof {
                    lemma_sum_remove(self.blocks@, k as int);
                    lemma_sum_nonneg(self.blocks@.remove(k as int));
                    assert(self.has_block(id));
                    assert(self.block_size(id) == size) by {
                        let kk = choose|kk: int|
                            0 <= kk < self.blocks@.len() && (#[trigger] self.blocks@[kk]).0 == id;
                        if kk < k {
                            assert(self.blocks@[kk].0 != id);
                        }
                        if kk > k {
                            assert(self.blocks@[k as int].0 != self.blocks@[kk].0);
                        }
                    }
                }
                let ghost pre = self.blocks@;
                self.blocks.remove(k);
                self.used = self.used - size;
                proof {
                    pre.remove_ensures(k as int);
                    assert forall|id2: u64| #[trigger] self.has_block(id2) implies (old(
                        self,
                    ).has_block(id2) && id2 != id) by {
                        let j = choose|j: int|
                            0 <= j < self.blocks@.len() && (#[trigger] self.blocks@[j]).0 == id2;
                        if j < k {
                            assert(pre[j].0 == id2);
                            if id2 == id {
                                assert(pre[j].0 != pre[k as int].0);
                            }
                        } else {
                            assert(pre[j + 1].0 == id2);
                            if id2 == id {
                                assert(pre[k as int].0 != pre[j + 1].0);
                            }
                        }
                    }
                    assert forall|id2: u64|
                        (old(self).has_block(id2) && id2 != id) implies self.has_block(id2) by {
                        let j = choose|j: int|
                            0 <= j < pre.len() && (#[trigger] pre[j]).0 == id2;
                        if j < k {
                            assert(self.blocks@[j].0 == id2);
                        } else {
                            assert(j != k);
                            assert(self.blocks@[j - 1].0 == id2);
                        }
                    }
                }
                return Ok(());
        }
        Err(KError::InvalidHandle)
    }
}

} // verus!
