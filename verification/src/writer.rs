//! The ordered writer's slot pool.
//!
//! Chunks of one batch finish in any order, yet the destination file must
//! receive them in index order.  [`ChunkWriter`] owns an array of
//! `total_chunks` optional buffers: each arriving `(chunk_id, buffer)` pair
//! is stored at position `chunk_id`, and once the whole batch has arrived the
//! buffers are drained in strictly ascending contiguous order starting at the
//! smallest id of the batch.  The caller that owns the destination file
//! writes the drained buffers one after the other; if a write fails it marks
//! the writer broken, which suppresses all further output while batches keep
//! being accepted, so the sending side never blocks.

use vstd::pervasive::VecAdditionalExecFns;
use vstd::prelude::*;

verus! {

/// No two pairs among the first `k` carry the same chunk id.
pub open spec fn ids_distinct_upto(pairs: Seq<(usize, Vec<u8>)>, k: int) -> bool {
    forall|i: int, j: int|
        0 <= i < j < k ==> (#[trigger] pairs[i]).0 != (#[trigger] pairs[j]).0
}

/// Some pair among the first `k` carries chunk id `id`.
pub open spec fn has_id_upto(pairs: Seq<(usize, Vec<u8>)>, k: int, id: int) -> bool {
    exists|i: int| 0 <= i < k && (#[trigger] pairs[i]).0 == id
}

/// The buffer paired with chunk id `id`; meaningful when the ids are
/// distinct and `id` occurs.
pub open spec fn buffer_for(pairs: Seq<(usize, Vec<u8>)>, id: int) -> Seq<u8> {
    (pairs[choose|i: int| 0 <= i < pairs.len() && (#[trigger] pairs[i]).0 == id].1)@
}

/// The smallest chunk id among the first `k` pairs, folded exactly as the
/// writer folds it at run time: starting from `usize::MAX`.
pub open spec fn min_id_upto(pairs: Seq<(usize, Vec<u8>)>, k: int) -> int
    decreases k,
{
    if k <= 0 {
        usize::MAX as int
    } else {
        let m = min_id_upto(pairs, k - 1);
        if pairs[k - 1].0 < m {
            pairs[k - 1].0 as int
        } else {
            m
        }
    }
}

/// A well-formed batch for a pool of `pool` slots: non-empty, distinct ids,
/// every id within the pool, and the ids contiguous from the smallest one.
pub open spec fn batch_ok(pairs: Seq<(usize, Vec<u8>)>, pool: int) -> bool {
    &&& pairs.len() > 0
    &&& ids_distinct_upto(pairs, pairs.len() as int)
    &&& forall|i: int| 0 <= i < pairs.len() ==> (#[trigger] pairs[i]).0 < pool
    &&& forall|i: int|
        0 <= i < pairs.len() ==> (#[trigger] pairs[i]).0 < min_id_upto(pairs, pairs.len() as int)
            + pairs.len()
    &&& forall|id: int|
        min_id_upto(pairs, pairs.len() as int) <= id < min_id_upto(pairs, pairs.len() as int)
            + pairs.len() ==> has_id_upto(pairs, pairs.len() as int, id)
}

/// What a clean batch drains to: the batch's buffers ordered by chunk id,
/// starting at the smallest id.
pub open spec fn writer_output_of(pairs: Seq<(usize, Vec<u8>)>) -> Seq<Seq<u8>> {
    Seq::new(pairs.len(), |j: int| buffer_for(pairs, min_id_upto(pairs, pairs.len() as int) + j))
}

/// With distinct ids, the buffer paired with the id of pair `k` is that
/// pair's buffer.
pub proof fn lemma_buffer_for(pairs: Seq<(usize, Vec<u8>)>, k: int)
    requires
        ids_distinct_upto(pairs, pairs.len() as int),
        0 <= k < pairs.len(),
    ensures
        buffer_for(pairs, pairs[k].0 as int) == pairs[k].1@,
{
    let id = pairs[k].0 as int;
    let i = choose|i: int| 0 <= i < pairs.len() && (#[trigger] pairs[i]).0 == id;
    assert(pairs[k].0 == id);
    assert(0 <= i < pairs.len() && pairs[i].0 == id);
    assert(i == k);
}

/// The smallest id among the first `k` pairs is no larger than any of them,
/// and occurs among them when `k > 0`.
pub proof fn lemma_min_id_upto(pairs: Seq<(usize, Vec<u8>)>, k: int)
    requires
        0 < k <= pairs.len(),
    ensures
        forall|i: int| 0 <= i < k ==> min_id_upto(pairs, k) <= (#[trigger] pairs[i]).0,
        has_id_upto(pairs, k, min_id_upto(pairs, k)),
    decreases k,
{
    if k == 1 {
        assert((pairs[0]).0 == min_id_upto(pairs, k));
    } else {
        lemma_min_id_upto(pairs, k - 1);
        if pairs[k - 1].0 >= min_id_upto(pairs, k - 1) {
            assert(min_id_upto(pairs, k) == min_id_upto(pairs, k - 1));
        }
    }
}

/// The slot pool of one file's ordered writer.
pub struct ChunkWriter {
    /// One optional buffer per chunk of the file, indexed by chunk id.
    pub slots: Vec<Option<Vec<u8>>>,
    /// Set once a destination write has failed; no further output is
    /// produced after that.
    pub broken: bool,
}

impl ChunkWriter {
    /// Every slot is empty, as between batches.
    pub open spec fn clean(&self) -> bool {
        forall|i: int| 0 <= i < self.slots@.len() ==> (#[trigger] self.slots@[i]) is None
    }

    /// A pool with one empty slot per chunk.
    pub fn new(pool_size: usize) -> (w: ChunkWriter)
        ensures
            w.slots@.len() == pool_size,
            w.clean(),
            !w.broken,
    {
        let mut slots: Vec<Option<Vec<u8>>> = Vec::new();
        let mut i: usize = 0;
        while i < pool_size
            invariant
                i <= pool_size,
                slots@.len() == i,
                forall|j: int| 0 <= j < i ==> (#[trigger] slots@[j]) is None,
            decreases pool_size - i,
        {
            slots.push(None);
            i = i + 1;
        }
        ChunkWriter { slots, broken: false }
    }

    /// Records that a destination write failed; all later batches drain to
    /// nothing.
    pub fn mark_broken(&mut self)
        ensures
            final(self).broken,
            final(self).slots == old(self).slots,
    {
        self.broken = true;
    }

    /// Whether every destination write so far succeeded; the driver awaits
    /// this as the file's final outcome before deciding disposal.
    pub fn succeeded(&self) -> (ok: bool)
        ensures
            ok == !self.broken,
    {
        !self.broken
    }

    /// Takes one batch of `(chunk_id, buffer)` pairs, in any arrival order,
    /// and returns the buffers to write: the batch ordered by chunk id.  A
    /// broken writer accepts the batch but returns nothing.
    pub fn process_batch(&mut self, pairs: Vec<(usize, Vec<u8>)>) -> (out: Vec<Vec<u8>>)
        requires
            old(self).clean(),
            batch_ok(pairs@, old(self).slots@.len() as int),
        ensures
            final(self).slots@.len() == old(self).slots@.len(),
            final(self).broken == old(self).broken,
            final(self).clean(),
            old(self).broken ==> out@.len() == 0,
            !old(self).broken ==> {
                &&& out@.len() == pairs@.len()
                &&& forall|t: int|
                    0 <= t < out@.len() ==> (#[trigger] out@[t])@ == writer_output_of(pairs@)[t]
            },
    {
        if self.broken {
            return Vec::new();
        }
        let ghost all = pairs@;
        let ghost pool = self.slots@.len() as int;
        let n = pairs.len();
        let mut pairs = pairs;
        let mut ref_id: usize = usize::MAX;
        let mut k: usize = 0;
        while k < n
            invariant
                k <= n,
                n == all.len(),
                pairs@ =~= all.skip(k as int),
                batch_ok(all, pool),
                self.slots@.len() == pool,
                !self.broken,
                ref_id as int == min_id_upto(all, k as int),
                forall|id: int|
                    0 <= id < pool ==> match #[trigger] self.slots@[id] {
                        Some(b) => has_id_upto(all, k as int, id) && b@ == buffer_for(all, id),
                        None => !has_id_upto(all, k as int, id),
                    },
            decreases n - k,
        {
            let (id, buf) = pairs.remove(0);
            let ghost bufv = buf@;
            proof {
                assert(all.skip(k as int)[0] == all[k as int]);
                assert(all[k as int].0 == id && all[k as int].1@ == bufv);
            }
            if id < ref_id {
                ref_id = id;
            }
            self.slots.set(id, Some(buf));
            proof {
                lemma_buffer_for(all, k as int);
                assert(buffer_for(all, id as int) == bufv);
                assert forall|id2: int| 0 <= id2 < pool && id2 != id implies (has_id_upto(
                    all,
                    k as int + 1,
                    id2,
                ) <==> has_id_upto(all, k as int, id2)) by {
                    if has_id_upto(all, k as int + 1, id2) {
                        let w = choose|w: int|
                            0 <= w < k as int + 1 && (#[trigger] all[w]).0 == id2;
                        assert(w < k as int);
                        assert(has_id_upto(all, k as int, id2));
                    }
                }
                assert(has_id_upto(all, k as int + 1, id as int)) by {
                    assert(all[k as int].0 == id);
                }
            }
            k = k + 1;
        }
        let ghost lo = ref_id as int;
        proof {
            lemma_min_id_upto(all, all.len() as int);
        }
        let mut out: Vec<Vec<u8>> = Vec::new();
        let mut j: usize = 0;
        while j < n
            invariant
                j <= n,
                n == all.len(),
                batch_ok(all, pool),
                self.slots@.len() == pool,
                !self.broken,
                lo == ref_id as int,
                lo == min_id_upto(all, all.len() as int),
                out@.len() == j,
                forall|t: int| 0 <= t < j ==> (#[trigger] out@[t])@ == buffer_for(all, lo + t),
                forall|id: int|
                    0 <= id < pool ==> match #[trigger] self.slots@[id] {
                        Some(b) => lo + j <= id && has_id_upto(all, all.len() as int, id) && b@
                            == buffer_for(all, id),
                        None => !(lo + j <= id && has_id_upto(all, all.len() as int, id)),
                    },
            decreases n - j,
        {
            proof {
                assert(has_id_upto(all, all.len() as int, lo + j));
                let w = choose|w: int|
                    0 <= w < all.len() && (#[trigger] all[w]).0 == lo + j as int;
                assert(all[w].0 < pool);
            }
            let idx = ref_id + j;
            let mut taken: Option<Vec<u8>> = None;
            self.slots.set_and_swap(idx, &mut taken);
            match taken {
                Some(b) => out.push(b),
                None => (),
            }
            j = j + 1;
        }
        proof {
            assert forall|id: int| 0 <= id < pool implies (#[trigger] self.slots@[id]) is None by {
                if self.slots@[id] is Some {
                    assert(has_id_upto(all, all.len() as int, id));
                }
            }
            assert forall|t: int| 0 <= t < out@.len() implies (#[trigger] out@[t])@
                == writer_output_of(all)[t] by {
                assert(out@[t]@ == buffer_for(all, lo + t));
            }
        }
        out
    }
}

/// Reordering correctness: the writer's output depends only on which buffer
/// carries which chunk id, never on arrival order.  Two batches that pair
/// the same ids with the same bytes drain to identical output.
pub proof fn lemma_reorder_independent(
    p1: Seq<(usize, Vec<u8>)>,
    p2: Seq<(usize, Vec<u8>)>,
    pool: int,
)
    requires
        batch_ok(p1, pool),
        batch_ok(p2, pool),
        p1.len() == p2.len(),
        forall|id: int|
            has_id_upto(p1, p1.len() as int, id) <==> has_id_upto(p2, p2.len() as int, id),
        forall|id: int|
            has_id_upto(p1, p1.len() as int, id) ==> buffer_for(p1, id) == buffer_for(p2, id),
    ensures
        writer_output_of(p1) == writer_output_of(p2),
{
    let m1 = min_id_upto(p1, p1.len() as int);
    let m2 = min_id_upto(p2, p2.len() as int);
    lemma_min_id_upto(p1, p1.len() as int);
    lemma_min_id_upto(p2, p2.len() as int);
    assert(m2 <= m1) by {
        let w = choose|i: int| 0 <= i < p2.len() && (#[trigger] p2[i]).0 == m1;
        assert(has_id_upto(p2, p2.len() as int, m1));
    }
    assert(m1 <= m2) by {
        let w = choose|i: int| 0 <= i < p1.len() && (#[trigger] p1[i]).0 == m2;
        assert(has_id_upto(p1, p1.len() as int, m2));
    }
    assert(writer_output_of(p1) =~= writer_output_of(p2));
}

} // verus!
