//! The store of signal levels over time and frequency.
use vstd::prelude::*;

verus! {

/// Signal levels over time and frequency, in blocks.
pub struct Waterfall {
    pub max_blocks: usize,
    pub num_blocks: usize,
    pub num_bins: usize,
    pub time_osr: usize,
    pub freq_osr: usize,
    pub mag: Vec<u8>,
    pub block_stride: usize,
    pub min_bin: usize,
    pub max_bin: usize,
    pub protocol: u8,
}

/// A level cut to a byte.
pub open spec fn level(n: int) -> u8 {
    if n < 0 {
        0
    } else if n > 255 {
        255
    } else {
        n as u8
    }
}

impl Waterfall {
    /// The store has room for all blocks.
    pub open spec fn wf(&self) -> bool {
        &&& self.mag@.len() == self.max_blocks * self.block_stride
        &&& self.num_blocks <= self.max_blocks
    }

    /// A store without blocks.
    pub fn new(
        max_blocks: usize,
        num_bins: usize,
        time_osr: usize,
        freq_osr: usize,
        min_bin: usize,
    ) -> (r: Waterfall)
        requires
            time_osr * freq_osr <= usize::MAX,
            time_osr * freq_osr * num_bins <= usize::MAX,
            max_blocks * (time_osr * freq_osr * num_bins) <= usize::MAX,
            min_bin + num_bins <= usize::MAX,
        ensures
            r.wf(),
            r.max_blocks == max_blocks,
            r.num_blocks == 0,
            r.num_bins == num_bins,
            r.time_osr == time_osr,
            r.freq_osr == freq_osr,
            r.block_stride == time_osr * freq_osr * num_bins,
            r.min_bin == min_bin,
            r.max_bin == min_bin + num_bins,
            r.protocol == 1,
            forall|i: int| 0 <= i < r.mag@.len() ==> #[trigger] r.mag@[i] == 0,
    {
        let block_stride: usize = time_osr * freq_osr * num_bins;
        let size: usize = max_blocks * block_stride;
        let mut mag: Vec<u8> = Vec::new();
        let mut i: usize = 0;
        while i < size
            invariant
                i <= size,
                mag@.len() == i,
                forall|k: int| 0 <= k < i ==> #[trigger] mag@[k] == 0,
            decreases size - i,
        {
            mag.push(0);
            i += 1;
        }
        Waterfall {
            max_blocks,
            num_blocks: 0,
            num_bins,
            time_osr,
            freq_osr,
            mag,
            block_stride,
            min_bin,
            max_bin: min_bin + num_bins,
            protocol: 1,
        }
    }

    /// Stores the levels of a block, if there is room for one; a level that
    /// is missing keeps its place as it was.
    pub fn store_block(&mut self, levels: &Vec<Option<i32>>)
        requires
            old(self).wf(),
            levels@.len() == old(self).block_stride,
        ensures
            final(self).wf(),
            final(self).max_blocks == old(self).max_blocks,
            final(self).block_stride == old(self).block_stride,
            final(self).num_bins == old(self).num_bins,
            final(self).time_osr == old(self).time_osr,
            final(self).freq_osr == old(self).freq_osr,
            final(self).min_bin == old(self).min_bin,
            final(self).max_bin == old(self).max_bin,
            final(self).protocol == old(self).protocol,
            old(self).num_blocks == old(self).max_blocks ==> final(self).num_blocks
                == old(self).num_blocks && final(self).mag@ == old(self).mag@,
            old(self).num_blocks < old(self).max_blocks ==> {
                let offset = old(self).num_blocks * old(self).block_stride;
                &&& final(self).num_blocks == old(self).num_blocks + 1
                &&& forall|i: int|
                    0 <= i < final(self).mag@.len() ==> #[trigger] final(self).mag@[i] == if offset
                        <= i < offset + levels@.len() && levels@[i - offset] is Some {
                        level(levels@[i - offset]->0 as int)
                    } else {
                        old(self).mag@[i]
                    }
            },
    {
        if self.num_blocks >= self.max_blocks {
            return;
        }
        let stride: usize = self.block_stride;
        let size: usize = self.mag.len();
        let ghost total = self.max_blocks as int;
        let ghost done = self.num_blocks as int;
        assert(done * stride + stride <= total * stride) by (nonlinear_arith)
            requires
                done + 1 <= total,
                stride >= 0,
        ;
        let offset: usize = self.num_blocks * stride;
        let ghost before = self.mag@;
        let mut i: usize = 0;
        while i < levels.len()
            invariant
                i <= levels@.len(),
                levels@.len() == stride,
                offset + stride <= size,
                size == before.len(),
                self.mag@.len() == before.len(),
                self.max_blocks == old(self).max_blocks,
                self.num_blocks == old(self).num_blocks,
                self.block_stride == old(self).block_stride,
                self.num_bins == old(self).num_bins,
                self.time_osr == old(self).time_osr,
                self.freq_osr == old(self).freq_osr,
                self.min_bin == old(self).min_bin,
                self.max_bin == old(self).max_bin,
                self.protocol == old(self).protocol,
                forall|k: int|
                    0 <= k < self.mag@.len() ==> #[trigger] self.mag@[k] == if offset <= k < offset
                        + i && levels@[k - offset] is Some {
                        level(levels@[k - offset]->0 as int)
                    } else {
                        before[k]
                    },
            decreases levels@.len() - i,
        {
            if let Some(v) = levels[i] {
                let b: u8 = if v < 0 {
                    0
                } else if v > 255 {
                    255
                } else {
                    v as u8
                };
                self.mag.set(offset + i, b);
            }
            i += 1;
        }
        self.num_blocks = self.num_blocks + 1;
    }
}

} // verus!
