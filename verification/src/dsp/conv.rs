//! Bookkeeping of the uniformly partitioned overlap-save convolver.
//!
//! The convolver splits a kernel of `kernel_len` taps into partitions of `block`
//! taps (at most `max_parts` of them), keeps the spectra of the last `max_parts`
//! input blocks in a ring (the frequency-domain delay line, FDL) and, for each
//! block, multiplies the spectrum that entered `p` blocks ago with the spectrum of
//! partition `p`. This module owns every index of that scheme: how many
//! partitions a kernel gets, which taps each one covers, which ring slot a new
//! block goes to and which slot partition `p` reads.

use vstd::prelude::*;
use vstd::arithmetic::div_mod::{lemma_fundamental_div_mod, lemma_fundamental_div_mod_converse, lemma_mod_bound};
use vstd::arithmetic::power2::{pow2, lemma_pow2_pos};
use crate::dsp::kernel::is_power_of_two;

verus! {

/// Ceiling of `a / b`, for `a >= 0` and `b > 0`.
pub open spec fn ceil_div(a: int, b: int) -> int {
    a / b + if a % b == 0 { 0int } else { 1int }
}

/// The smaller of two integers.
pub open spec fn min_int(a: int, b: int) -> int {
    if a <= b { a } else { b }
}

/// The larger of two integers.
pub open spec fn max_int(a: int, b: int) -> int {
    if a >= b { a } else { b }
}

/// Slot of a ring of `m` slots that receives block number `t`, counted from the
/// last reset. For negative `t` (a block before the reset) it is the slot that
/// block would have had.
pub open spec fn ring_slot(t: int, m: int) -> int {
    t % m
}

/// Index state of a partitioned convolver.
pub struct PartitionedConv {
    block: usize,
    max_parts: usize,
    parts: usize,
    kernel_len: usize,
    fdl_pos: usize,
    pushed: Ghost<nat>,
}

impl PartitionedConv {
    /// Block length: samples per processed block, taps per partition.
    pub closed spec fn block_len(&self) -> nat {
        self.block as nat
    }

    /// Number of slots of the delay line, the most partitions a kernel can have.
    pub closed spec fn part_capacity(&self) -> nat {
        self.max_parts as nat
    }

    /// Number of partitions of the current kernel.
    pub closed spec fn part_count(&self) -> nat {
        self.parts as nat
    }

    /// Length of the current kernel, in taps.
    pub closed spec fn kernel_taps(&self) -> nat {
        self.kernel_len as nat
    }

    /// Blocks pushed into the delay line since construction or the last reset.
    pub closed spec fn blocks_pushed(&self) -> nat {
        self.pushed@
    }

    /// Internal consistency of the state.
    pub closed spec fn wf(&self) -> bool {
        &&& is_power_of_two(self.block as int)
        &&& self.block > 0
        &&& self.max_parts >= 1
        &&& self.parts == min_int(ceil_div(self.kernel_len as int, self.block as int), self.max_parts as int)
        &&& self.fdl_pos == self.pushed@ % (self.max_parts as nat)
    }

    /// First tap of partition `p`.
    pub open spec fn span_start(&self, p: int) -> int {
        p * self.block_len()
    }

    /// One past the last tap of partition `p`.
    pub open spec fn span_end(&self, p: int) -> int {
        min_int((p + 1) * self.block_len(), self.kernel_taps() as int)
    }

    /// Taps of the kernel that the partitions hold; taps beyond are dropped.
    pub open spec fn covered_len(&self) -> int {
        min_int(self.kernel_taps() as int, (self.part_capacity() * self.block_len()) as int)
    }

    /// A convolver for blocks of `block` samples and kernels of up to
    /// `max_kernel` taps, with no kernel loaded and an empty delay line.
    pub fn new(block: usize, max_kernel: usize) -> (conv: Self)
        requires
            is_power_of_two(block as int),
        ensures
            conv.wf(),
            conv.block_len() == block,
            conv.part_capacity() == max_int(ceil_div(max_kernel as int, block as int), 1),
            conv.part_count() == 0,
            conv.kernel_taps() == 0,
            conv.blocks_pushed() == 0,
    {
        proof {
            let k = choose|k: nat| pow2(k) == block;
            lemma_pow2_pos(k);
        }
        let parts_needed = div_ceil(max_kernel, block);
        let max_parts = if parts_needed >= 1 { parts_needed } else { 1 };
        let conv = PartitionedConv {
            block,
            max_parts,
            parts: 0,
            kernel_len: 0,
            fdl_pos: 0,
            pushed: Ghost(0),
        };
        assert(0nat % (max_parts as nat) == 0) by {
            lemma_fundamental_div_mod_converse(0, max_parts as int, 0, 0);
        }
        conv
    }

    /// Block length.
    pub fn block(&self) -> (b: usize)
        ensures
            b == self.block_len(),
    {
        self.block
    }

    /// Number of slots of the delay line.
    pub fn max_parts(&self) -> (m: usize)
        ensures
            m == self.part_capacity(),
    {
        self.max_parts
    }

    /// Number of partitions of the current kernel.
    pub fn parts(&self) -> (n: usize)
        ensures
            n == self.part_count(),
    {
        self.parts
    }

    /// Loads a kernel of `kernel_len` taps: it gets one partition per started
    /// block of taps, at most `part_capacity()` of them. The delay line is kept.
    pub fn set_kernel(&mut self, kernel_len: usize) -> (parts: usize)
        requires
            old(self).wf(),
        ensures
            final(self).wf(),
            parts == final(self).part_count(),
            final(self).part_count() == min_int(
                ceil_div(kernel_len as int, old(self).block_len() as int),
                old(self).part_capacity() as int,
            ),
            final(self).kernel_taps() == kernel_len,
            final(self).block_len() == old(self).block_len(),
            final(self).part_capacity() == old(self).part_capacity(),
            final(self).blocks_pushed() == old(self).blocks_pushed(),
    {
        let needed = div_ceil(kernel_len, self.block);
        let parts = if needed <= self.max_parts { needed } else { self.max_parts };
        self.parts = parts;
        self.kernel_len = kernel_len;
        parts
    }

    /// Taps `[a, b)` of the kernel that partition `p` holds. They are never
    /// empty and never longer than a block, so each fits the first half of the
    /// zero-padded FFT frame of `2 * block` samples.
    pub fn partition_span(&self, p: usize) -> (span: (usize, usize))
        requires
            self.wf(),
            p < self.part_count(),
        ensures
            span.0 == self.span_start(p as int),
            span.1 == self.span_end(p as int),
            span.0 < span.1,
            span.1 - span.0 <= self.block_len(),
    {
        proof {
            lemma_partition_start_in_kernel(p as int, self.kernel_len as int, self.block as int);
        }
        let a = p * self.block;
        let b = if self.kernel_len - a < self.block { self.kernel_len } else { a + self.block };
        proof {
            assert((p + 1) * self.block == a + self.block) by (nonlinear_arith)
                requires a == p * self.block;
        }
        (a, b)
    }

    /// Empties the delay line: block numbering starts again from zero. The
    /// kernel is kept.
    pub fn reset(&mut self)
        requires
            old(self).wf(),
        ensures
            final(self).wf(),
            final(self).blocks_pushed() == 0,
            final(self).block_len() == old(self).block_len(),
            final(self).part_capacity() == old(self).part_capacity(),
            final(self).part_count() == old(self).part_count(),
            final(self).kernel_taps() == old(self).kernel_taps(),
    {
        self.fdl_pos = 0;
        self.pushed = Ghost(0);
        assert(0nat % (self.max_parts as nat) == 0) by {
            lemma_fundamental_div_mod_converse(0, self.max_parts as int, 0, 0);
        }
    }

    /// Enters a new block into the delay line and returns the slot that
    /// receives its spectrum.
    pub fn push_block(&mut self) -> (slot: usize)
        requires
            old(self).wf(),
        ensures
            final(self).wf(),
            slot == ring_slot(old(self).blocks_pushed() as int, old(self).part_capacity() as int),
            slot < old(self).part_capacity(),
            final(self).blocks_pushed() == old(self).blocks_pushed() + 1,
            final(self).block_len() == old(self).block_len(),
            final(self).part_capacity() == old(self).part_capacity(),
            final(self).part_count() == old(self).part_count(),
            final(self).kernel_taps() == old(self).kernel_taps(),
    {
        let slot = self.fdl_pos;
        proof {
            lemma_ring_step(self.pushed@ as int, self.max_parts as int);
        }
        self.fdl_pos = if self.fdl_pos + 1 == self.max_parts { 0 } else { self.fdl_pos + 1 };
        self.pushed = Ghost(self.pushed@ + 1);
        slot
    }

    /// Slot holding the spectrum that partition `p` multiplies: that of the
    /// block pushed `p` blocks before the most recent one.
    pub fn read_slot(&self, p: usize) -> (slot: usize)
        requires
            self.wf(),
            p < self.part_capacity(),
        ensures
            slot == ring_slot(self.blocks_pushed() - 1 - p, self.part_capacity() as int),
            slot < self.part_capacity(),
    {
        let back = p + 1;
        let slot = if back <= self.fdl_pos {
            self.fdl_pos - back
        } else {
            self.fdl_pos + (self.max_parts - back)
        };
        proof {
            lemma_ring_back(self.pushed@ as int, self.max_parts as int, back as int);
        }
        slot
    }
}

/// Ceiling of `a / b`.
fn div_ceil(a: usize, b: usize) -> (c: usize)
    requires
        b > 0,
    ensures
        c == ceil_div(a as int, b as int),
{
    let q = a / b;
    if a % b == 0 {
        q
    } else {
        assert(q < a) by (nonlinear_arith)
            requires q == a / b, b > 0, a % b != 0, a >= 0;
        q + 1
    }
}

/// Quotient and remainder of `x` by a positive `d`.
proof fn lemma_div_mod(x: int, d: int)
    requires
        d > 0,
    ensures
        x == (x / d) * d + x % d,
        0 <= x % d < d,
{
    lemma_fundamental_div_mod(x, d);
    lemma_mod_bound(x, d);
    assert(d * (x / d) == (x / d) * d) by (nonlinear_arith);
}

/// A partition index below `ceil_div(len, block)` starts inside the kernel.
proof fn lemma_partition_start_in_kernel(p: int, len: int, block: int)
    requires
        block > 0,
        0 <= p,
        len >= 0,
        p < ceil_div(len, block),
    ensures
        p * block < len,
{
    lemma_div_mod(len, block);
    let q = len / block;
    let r = len % block;
    assert(p * block < len) by (nonlinear_arith)
        requires
            block > 0,
            0 <= p,
            len == q * block + r,
            0 <= r < block,
            r == 0 ==> p < q,
            r != 0 ==> p <= q,
    ;
}

/// The ring position advances by one slot per block, wrapping at `m`.
proof fn lemma_ring_step(t: int, m: int)
    requires
        t >= 0,
        m >= 1,
    ensures
        (t + 1) % m == if t % m + 1 == m { 0 } else { t % m + 1 },
        t % m < m,
{
    lemma_div_mod(t, m);
    let q = t / m;
    let r = t % m;
    if r + 1 == m {
        assert(t + 1 == (q + 1) * m + 0) by (nonlinear_arith)
            requires t == q * m + r, r + 1 == m;
        lemma_fundamental_div_mod_converse(t + 1, m, q + 1, 0);
    } else {
        lemma_fundamental_div_mod_converse(t + 1, m, q, r + 1);
    }
}

/// Going `back` slots behind position `t % m` in a ring of `m` slots lands on
/// the slot of block `t - back`.
proof fn lemma_ring_back(t: int, m: int, back: int)
    requires
        t >= 0,
        m >= 1,
        1 <= back <= m,
    ensures
        (t - back) % m == if back <= t % m { t % m - back } else { t % m + (m - back) },
        (t - back) % m < m,
{
    lemma_div_mod(t, m);
    let q = t / m;
    let r = t % m;
    if back <= r {
        lemma_fundamental_div_mod_converse(t - back, m, q, r - back);
    } else {
        assert(t - back == (q - 1) * m + (r + m - back)) by (nonlinear_arith)
            requires t == q * m + r;
        lemma_fundamental_div_mod_converse(t - back, m, q - 1, r + m - back);
    }
}

/// Two blocks less than `m` apart never share a slot of a ring of `m` slots.
proof fn lemma_ring_distinct(a: int, d: int, m: int)
    requires
        m > 0,
        0 < d < m,
    ensures
        ring_slot(a + d, m) != ring_slot(a, m),
{
    lemma_div_mod(a, m);
    lemma_div_mod(a + d, m);
    let q1 = a / m;
    let q2 = (a + d) / m;
    if (a + d) % m == a % m {
        assert(false) by (nonlinear_arith)
            requires
                a == q1 * m + a % m,
                a + d == q2 * m + a % m,
                0 < d < m,
        ;
    }
}

/// The delay line holds exactly what partitioned convolution needs: at any
/// time, the slot that partition `p` reads holds the spectrum of the block
/// pushed `p` blocks before the most recent one, since no later block was
/// written there; if fewer than `p + 1` blocks were pushed since the last
/// reset, no block since that reset was written there, so it still holds what
/// the reset left. Distinct partitions read distinct slots.
pub proof fn lemma_fdl_history(conv: &PartitionedConv, p: int)
    requires
        conv.wf(),
        0 <= p < conv.part_capacity(),
    ensures
        ({
            let n = conv.blocks_pushed() as int;
            let m = conv.part_capacity() as int;
            let slot = ring_slot(n - 1 - p, m);
            &&& p < n ==> forall|s: int| n - 1 - p < s < n ==> #[trigger] ring_slot(s, m) != slot
            &&& p >= n ==> forall|s: int| 0 <= s < n ==> #[trigger] ring_slot(s, m) != slot
            &&& forall|q: int| 0 <= q < m && q != p ==> #[trigger] ring_slot(n - 1 - q, m) != slot
        }),
{
    let n = conv.blocks_pushed() as int;
    let m = conv.part_capacity() as int;
    let slot = ring_slot(n - 1 - p, m);
    assert forall|s: int| p < n && n - 1 - p < s < n implies #[trigger] ring_slot(s, m) != slot by {
        lemma_ring_distinct(n - 1 - p, s - (n - 1 - p), m);
    }
    if p >= n {
        assert(n - 1 - p == (-1) * m + (n - 1 - p + m)) by (nonlinear_arith);
        lemma_fundamental_div_mod_converse(n - 1 - p, m, -1, n - 1 - p + m);
        assert forall|s: int| 0 <= s < n implies #[trigger] ring_slot(s, m) != slot by {
            assert(s == 0 * m + s) by (nonlinear_arith);
            lemma_fundamental_div_mod_converse(s, m, 0, s);
        }
    }
    assert forall|q: int| 0 <= q < m && q != p implies #[trigger] ring_slot(n - 1 - q, m) != slot by {
        if q < p {
            lemma_ring_distinct(n - 1 - p, p - q, m);
        } else {
            lemma_ring_distinct(n - 1 - q, q - p, m);
        }
    }
}

/// The partitions tile the kernel: tap `k` lies in some partition exactly when
/// `k < covered_len()`, and then only in partition `k / block`, at offset
/// `k % block`. Taps from `part_capacity() * block` on are dropped.
pub proof fn lemma_partition_cover(conv: &PartitionedConv, k: int)
    requires
        conv.wf(),
        0 <= k,
    ensures
        k < conv.covered_len() ==> {
            let p = k / conv.block_len() as int;
            &&& 0 <= p < conv.part_count()
            &&& conv.span_start(p) <= k < conv.span_end(p)
            &&& k - conv.span_start(p) == k % conv.block_len() as int
        },
        forall|p: int|
            0 <= p < conv.part_count() && conv.span_start(p) <= k < #[trigger] conv.span_end(p)
                ==> p == k / conv.block_len() as int && k < conv.covered_len(),
{
    let b = conv.block_len() as int;
    let len = conv.kernel_taps() as int;
    let m = conv.part_capacity() as int;
    lemma_div_mod(k, b);
    let q = k / b;
    let r = k % b;
    if k < conv.covered_len() {
        lemma_div_mod(len, b);
        let ql = len / b;
        let rl = len % b;
        assert(q < ceil_div(len, b)) by (nonlinear_arith)
            requires
                b > 0,
                k == q * b + r,
                0 <= r < b,
                len == ql * b + rl,
                0 <= rl < b,
                k < len,
                ceil_div(len, b) == ql + if rl == 0 { 0int } else { 1int },
        ;
        assert(q < m) by (nonlinear_arith)
            requires
                b > 0,
                k == q * b + r,
                0 <= r < b,
                k < m * b,
        ;
        assert(0 <= q) by (nonlinear_arith)
            requires b > 0, k == q * b + r, 0 <= r < b, 0 <= k;
        assert(q * b <= k < (q + 1) * b) by (nonlinear_arith)
            requires k == q * b + r, 0 <= r < b;
    }
    assert forall|p: int|
        0 <= p < conv.part_count() && conv.span_start(p) <= k < #[trigger] conv.span_end(p)
            implies p == q && k < conv.covered_len() by {
        assert(k - p * b < b) by (nonlinear_arith)
            requires k < (p + 1) * b;
        lemma_fundamental_div_mod_converse(k, b, p, k - p * b);
        assert((p + 1) * b <= m * b) by (nonlinear_arith)
            requires p + 1 <= m, b > 0;
    }
}

} // verus!
