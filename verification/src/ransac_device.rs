//! The device side of a consensus fit: when it is used, how a batch of trials is
//! blocked and launched, and where each trial's partial results stand.

use crate::arith::{
    ceil_div, ceil_div_int, max_usize, min_usize, product_is, sat_mul_int, saturating_mul,
};
use crate::backend::Device;
use crate::error::{shape_error, shape_mismatch, PrimError};
use crate::flag::{flag_text, parse_count, parsed_count, text_eq};
use crate::launch::{folded_dims, launch_dims_1d_folded, LaunchDims, PERF_TUNED_BLOCK};
use crate::ransac_host::TrialScan;
use crate::seqs::copy_vec;
use vstd::prelude::*;

verus! {

/// Trials of one launch, unless the flag says otherwise.
pub const RANSAC_DEVICE_BATCH: usize = 8;

/// Units that a batch is blocked for.
pub const TARGET_UNITS: usize = 2048;

/// The fewest rows of one block.
pub const MIN_ROWS_PER_BLOCK: usize = 32;

/// The work from which the device is used unasked. No fit reaches it: the
/// device is used on request.
pub const RANSAC_DEVICE_MIN_WORK: usize = usize::MAX;

/// Partial results of a block before its per-target sums: the inlier count.
pub const RANSAC_SCAN_BASE: usize = 1;

/// Whether the device can scan elements of `elem_size` bytes: eight-byte ones
/// need kernels for them.
pub open spec fn device_possible(elem_size: usize, f64_kernels: bool) -> bool {
    elem_size != 8 || f64_kernels
}

/// Whether the device can scan elements of `elem_size` bytes.
pub fn ransac_device_possible(elem_size: usize, f64_kernels: bool) -> (r: bool)
    ensures
        r == device_possible(elem_size, f64_kernels),
{
    elem_size != 8 || f64_kernels
}

/// Whether the shape, or the flag `"host"` or `"device"` in its place, suggests
/// the device.
pub open spec fn device_suggested(
    n: usize,
    d: usize,
    elem_size: usize,
    f64_kernels: bool,
    engine_flag: Option<&str>,
) -> bool {
    device_possible(elem_size, f64_kernels) && (if flag_text(engine_flag) == Some("host"@) {
        false
    } else if flag_text(engine_flag) == Some("device"@) {
        true
    } else {
        sat_mul_int(n as int, vstd::math::max(d as int, 1)) >= RANSAC_DEVICE_MIN_WORK
    })
}

/// Whether the device should scan an `n` by `d` design.
pub fn ransac_device_applicable(
    n: usize,
    d: usize,
    elem_size: usize,
    f64_kernels: bool,
    engine_flag: Option<&str>,
) -> (r: bool)
    ensures
        r == device_suggested(n, d, elem_size, f64_kernels, engine_flag),
{
    if !ransac_device_possible(elem_size, f64_kernels) {
        return false;
    }
    match engine_flag {
        Some(v) => {
            if text_eq(v, "host") {
                return false;
            }
            if text_eq(v, "device") {
                return true;
            }
        },
        None => {},
    }
    saturating_mul(n, max_usize(d, 1)) >= RANSAC_DEVICE_MIN_WORK
}

/// Whether the device scans a fit: it must be possible, and either wished for
/// or, where no wish is stated, suggested.
pub fn ransac_device_chosen(
    n: usize,
    d: usize,
    device: Device,
    elem_size: usize,
    f64_kernels: bool,
    engine_flag: Option<&str>,
) -> (r: bool)
    ensures
        r == (device_possible(elem_size, f64_kernels) && match device {
            Device::Auto => device_suggested(n, d, elem_size, f64_kernels, engine_flag),
            Device::Cpu => false,
            Device::Gpu => true,
        }),
{
    ransac_device_possible(elem_size, f64_kernels) && device.prefers_device(
        ransac_device_applicable(n, d, elem_size, f64_kernels, engine_flag),
    )
}

/// The trials of the next launch: the flag's width or the default, and no more
/// than remain.
pub fn ransac_batch_width(remaining: usize, batch_flag: Option<&str>) -> (r: usize)
    ensures
        r == vstd::math::min(
            vstd::math::max(
                match flag_text(batch_flag) {
                    Some(t) if parsed_count(t) is Some => parsed_count(t)->0 as int,
                    _ => RANSAC_DEVICE_BATCH as int,
                },
                1,
            ),
            vstd::math::max(remaining as int, 1),
        ),
        1 <= r,
        remaining >= 1 ==> r <= remaining,
        batch_flag is None && remaining >= 8 ==> r == 8,
        batch_flag is None && 1 <= remaining < 8 ==> r == remaining,
{
    let want: usize = match batch_flag {
        Some(v) => match parse_count(v) {
            Some(w) => w,
            None => RANSAC_DEVICE_BATCH,
        },
        None => RANSAC_DEVICE_BATCH,
    };
    min_usize(max_usize(want, 1), max_usize(remaining, 1))
}

// ---------------------------------------------------------------------------
// Blocks
// ---------------------------------------------------------------------------

/// The blocks that would fill the device when each runs `batch` trials.
pub open spec fn blocks_wanted(batch: int) -> int {
    vstd::math::max(1, ceil_div_int(TARGET_UNITS as int, vstd::math::max(batch, 1)))
}

/// Rows of one block.
pub open spec fn block_rows(n: int, batch: int) -> int {
    vstd::math::max(ceil_div_int(n, blocks_wanted(batch)), MIN_ROWS_PER_BLOCK as int)
}

/// The number of blocks.
pub open spec fn block_total(n: int, batch: int) -> int {
    vstd::math::max(1, ceil_div_int(n, block_rows(n, batch)))
}

/// Plans the row blocks of a batch: how many, and how many rows each.
pub fn plan_blocks(n: usize, batch: usize) -> (r: (usize, usize))
    ensures
        r.0 == block_total(n as int, batch as int),
        r.1 == block_rows(n as int, batch as int),
        r.0 >= 1,
        r.1 >= MIN_ROWS_PER_BLOCK,
{
    let want: usize = max_usize(ceil_div(TARGET_UNITS, max_usize(batch, 1)), 1);
    let rows: usize = max_usize(ceil_div(n, want), MIN_ROWS_PER_BLOCK);
    (max_usize(ceil_div(n, rows), 1), rows)
}

/// Device blocks hold every row once, and there are no more than fill the
/// device.
pub proof fn lemma_device_blocks(n: int, batch: int)
    requires
        n >= 0,
        batch >= 0,
    ensures
        block_total(n, batch) * block_rows(n, batch) >= n,
        n > 0 ==> (block_total(n, batch) - 1) * block_rows(n, batch) < n,
        1 <= block_total(n, batch) <= blocks_wanted(batch),
{
    let want = blocks_wanted(batch);
    let rows = block_rows(n, batch);
    crate::arith::lemma_ceil_div_brackets(n, want);
    crate::arith::lemma_ceil_div_brackets(n, rows);
    let even = ceil_div_int(n, want);
    assert(want * rows >= n) by (nonlinear_arith)
        requires
            even * want >= n,
            rows >= even,
            want >= 1,
    ;
    crate::arith::lemma_ceil_div_least(n, rows, want);
    let c = ceil_div_int(n, rows);
    let total = block_total(n, batch);
    assert(total * rows >= n) by (nonlinear_arith)
        requires
            c * rows >= n,
            total >= c,
            rows >= 1,
    ;
    if n > 0 {
        assert(c >= 1) by (nonlinear_arith)
            requires
                c * rows >= n,
                n > 0,
                rows >= 1,
        ;
    }
}

// ---------------------------------------------------------------------------
// Scans
// ---------------------------------------------------------------------------

/// What the device scan of one trial found: the inlier count, and per target
/// the squared error and the sum of the inlier targets.
#[derive(Debug, Clone)]
pub struct DeviceTrialScan<T> {
    pub n_inliers: usize,
    pub sq_err: Vec<T>,
    pub y_sum: Vec<T>,
}

impl<T: Copy> DeviceTrialScan<T> {
    /// The part that both sides of a fit work on.
    pub fn as_trial_scan(&self) -> (r: TrialScan<T>)
        ensures
            r.n_inliers == self.n_inliers,
            r.sq_err@ == self.sq_err@,
    {
        TrialScan { n_inliers: self.n_inliers, sq_err: copy_vec(&self.sq_err) }
    }
}

/// A planned batch scan.
#[derive(Debug, Clone, Copy, PartialEq, Eq)]
pub struct ScanPlan {
    pub launch: LaunchDims,
    /// Partial results of one block.
    pub stride: usize,
    /// Partial results of the batch.
    pub part_len: usize,
}

/// The layout of a design on the device: its shape, the most trials of a batch,
/// and the row blocks.
pub struct RansacDevice {
    n: usize,
    d: usize,
    t: usize,
    batch_max: usize,
    nblocks: usize,
    rows_per_block: usize,
    mask_len: usize,
}

impl RansacDevice {
    /// Rows, columns and target columns.
    pub closed spec fn shape(self) -> (nat, nat, nat) {
        (self.n as nat, self.d as nat, self.t as nat)
    }

    /// The most trials of a batch.
    pub closed spec fn room(self) -> nat {
        self.batch_max as nat
    }

    /// The number of blocks and the rows of each.
    pub closed spec fn blocking(self) -> (nat, nat) {
        (self.nblocks as nat, self.rows_per_block as nat)
    }

    /// Entries of the resident masks.
    pub closed spec fn masks(self) -> nat {
        self.mask_len as nat
    }

    /// The blocking follows the shape, and there is a mask for every trial.
    pub open spec fn wf(self) -> bool {
        &&& self.room() >= 1
        &&& self.blocking().0 == block_total(self.shape().0 as int, self.room() as int)
        &&& self.blocking().1 == block_rows(self.shape().0 as int, self.room() as int)
        &&& self.masks() == self.room() * self.shape().0
    }

    /// Partial results of one block: the inlier count, then a squared error and
    /// a sum for each target.
    pub open spec fn stride(self) -> int {
        RANSAC_SCAN_BASE + 2 * self.shape().2
    }

    /// Where the partial results of block `blk` of trial `b` start.
    pub open spec fn slot(self, b: int, blk: int) -> int {
        (b * self.blocking().0 + blk) * self.stride()
    }

    /// Lays out a design for batches of up to `batch_max` trials.
    pub fn new(
        x_len: usize,
        y_len: usize,
        n: usize,
        d: usize,
        t: usize,
        batch_max: usize,
    ) -> (r: Result<RansacDevice, PrimError>)
        requires
            n * d == x_len && n * t == y_len ==> batch_max * n <= usize::MAX,
        ensures
            if n * d != x_len {
                r is Err && r->Err_0 == shape_error("ransac_x", n, d, x_len)
            } else if n * t != y_len {
                r is Err && r->Err_0 == shape_error("ransac_y", n, t, y_len)
            } else {
                &&& r is Ok
                &&& r->Ok_0.wf()
                &&& r->Ok_0.shape() == (n as nat, d as nat, t as nat)
                &&& r->Ok_0.room() == vstd::math::max(batch_max as int, 1)
            },
    {
        if !product_is(n, d, x_len) {
            return Err(shape_mismatch("ransac_x", n, d, x_len));
        }
        if !product_is(n, t, y_len) {
            return Err(shape_mismatch("ransac_y", n, t, y_len));
        }
        let room: usize = max_usize(batch_max, 1);
        assert(room * n <= usize::MAX) by (nonlinear_arith)
            requires
                batch_max * n <= usize::MAX,
                room == batch_max || room == 1,
                n <= usize::MAX,
        ;
        let (nblocks, rows_per_block): (usize, usize) = plan_blocks(n, room);
        Ok(
            RansacDevice {
                n,
                d,
                t,
                batch_max: room,
                nblocks,
                rows_per_block,
                mask_len: room * n,
            },
        )
    }

    /// The most trials of a batch.
    pub fn batch_max(&self) -> (r: usize)
        ensures
            r == self.room(),
    {
        self.batch_max
    }

    /// The number of row blocks, and the rows of each.
    pub fn blocks(&self) -> (r: (usize, usize))
        ensures
            r.0 == self.blocking().0,
            r.1 == self.blocking().1,
    {
        (self.nblocks, self.rows_per_block)
    }

    /// Plans the scan of a batch; refuses an empty batch and one without masks.
    pub fn scan_batch_plan(&self, batch: usize) -> (r: Result<ScanPlan, PrimError>)
        requires
            self.wf(),
            1 <= batch <= self.room() ==> batch * self.blocking().0 * self.stride() <= usize::MAX,
        ensures
            if batch == 0 || batch > self.room() {
                r == Err::<ScanPlan, PrimError>(
                    shape_error("ransac_batch", self.room() as usize, 1, batch),
                )
            } else {
                &&& r is Ok
                &&& r->Ok_0.stride == self.stride()
                &&& r->Ok_0.part_len == batch * self.blocking().0 * self.stride()
                &&& r->Ok_0.launch == folded_dims(
                    ((batch * self.blocking().0) as usize as u32) as int,
                    PERF_TUNED_BLOCK,
                )
            },
    {
        if batch == 0 || batch > self.batch_max {
            return Err(shape_mismatch("ransac_batch", self.batch_max, 1, batch));
        }
        proof {
            let s = self.stride();
            let units = batch * self.blocking().0;
            assert(units >= 1) by (nonlinear_arith)
                requires
                    units == batch * self.blocking().0,
                    batch >= 1,
                    self.blocking().0 >= 1,
            ;
            assert(s <= units * s && units <= units * s) by (nonlinear_arith)
                requires
                    units >= 1,
                    s >= 1,
            ;
        }
        let stride: usize = RANSAC_SCAN_BASE + 2 * self.t;
        let units: usize = batch * self.nblocks;
        Ok(
            ScanPlan {
                launch: launch_dims_1d_folded(units, PERF_TUNED_BLOCK),
                stride,
                part_len: units * stride,
            },
        )
    }

    /// Where the partial results of trial `b` start, block after block: the
    /// order in which they are summed.
    pub fn trial_slots(&self, b: usize, batch: usize) -> (r: Vec<usize>)
        requires
            self.wf(),
            b < batch <= self.room(),
            batch * self.blocking().0 * self.stride() <= usize::MAX,
        ensures
            r.len() == self.blocking().0,
            forall|blk: int| 0 <= blk < r.len() ==> #[trigger] r[blk] == self.slot(b as int, blk),
    {
        proof {
            lemma_slots_inside(*self, batch as int, b as int, 0);
        }
        let stride: usize = RANSAC_SCAN_BASE + 2 * self.t;
        let mut out: Vec<usize> = Vec::new();
        let mut blk: usize = 0;
        while blk < self.nblocks
            invariant
                self.wf(),
                b < batch <= self.room(),
                batch * self.blocking().0 * self.stride() <= usize::MAX,
                stride == self.stride(),
                blk <= self.nblocks,
                out.len() == blk,
                forall|i: int| 0 <= i < blk ==> #[trigger] out[i] == self.slot(b as int, i),
            decreases self.nblocks - blk,
        {
            proof {
                lemma_slots_inside(*self, batch as int, b as int, blk as int);
            }
            out.push((b * self.nblocks + blk) * stride);
            blk = blk + 1;
        }
        out
    }

    /// The inlier mask of trial `b`, out of the resident masks.
    pub fn mask_of(&self, host: &Vec<u32>, b: usize) -> (r: Vec<bool>)
        requires
            self.wf(),
            b < self.room(),
            host.len() == self.masks(),
        ensures
            r.len() == self.shape().0,
            forall|i: int|
                0 <= i < r.len() ==> #[trigger] r[i] == (host[b * self.shape().0 + i] == 1),
    {
        assert(0 <= b * self.n && b * self.n + self.n <= self.mask_len) by (nonlinear_arith)
            requires
                b < self.batch_max,
                self.mask_len == self.batch_max * self.n,
        ;
        let start: usize = b * self.n;
        let mut out: Vec<bool> = Vec::new();
        let mut i: usize = 0;
        while i < self.n
            invariant
                i <= self.n,
                start == b * self.n,
                start + self.n <= self.mask_len,
                host.len() == self.mask_len,
                out.len() == i,
                forall|j: int| 0 <= j < i ==> #[trigger] out[j] == (host[b * self.n + j] == 1),
            decreases self.n - i,
        {
            out.push(host[start + i] == 1);
            i = i + 1;
        }
        out
    }

    /// The launch and the number of partial results of a score denominator.
    pub fn r2_den_plan(&self) -> (r: (LaunchDims, usize))
        requires
            self.wf(),
            self.blocking().0 * self.shape().2 <= usize::MAX,
        ensures
            r.0 == folded_dims((self.blocking().0 as usize as u32) as int, PERF_TUNED_BLOCK),
            r.1 == self.blocking().0 * self.shape().2,
    {
        (launch_dims_1d_folded(self.nblocks, PERF_TUNED_BLOCK), self.nblocks * self.t)
    }
}

proof fn lemma_slots_inside(dev: RansacDevice, batch: int, b: int, blk: int)
    requires
        dev.wf(),
        0 <= b < batch,
        0 <= blk < dev.blocking().0,
    ensures
        0 <= b * dev.blocking().0,
        0 <= b * dev.blocking().0 + blk <= dev.slot(b, blk),
        dev.slot(b, blk) + dev.stride() <= batch * dev.blocking().0 * dev.stride(),
        dev.stride() >= 1,
{
    let nb = dev.blocking().0 as int;
    let s = dev.stride();
    let at = b * nb + blk;
    assert(0 <= b * nb && at + 1 <= batch * nb) by (nonlinear_arith)
        requires
            0 <= b < batch,
            0 <= blk < nb,
            at == b * nb + blk,
    ;
    assert(at <= at * s && at * s + s <= batch * nb * s) by (nonlinear_arith)
        requires
            0 <= at,
            at + 1 <= batch * nb,
            s >= 1,
    ;
}

/// The partial results of a batch do not overlap: two blocks, of the same trial
/// or of different ones, have slots at least a stride apart, and all of them lie
/// inside the batch.
pub proof fn lemma_slots_disjoint(
    dev: RansacDevice,
    batch: int,
    b1: int,
    blk1: int,
    b2: int,
    blk2: int,
)
    requires
        dev.wf(),
        0 <= b1 < batch,
        0 <= b2 < batch,
        0 <= blk1 < dev.blocking().0,
        0 <= blk2 < dev.blocking().0,
        (b1, blk1) != (b2, blk2),
    ensures
        dev.slot(b1, blk1) + dev.stride() <= dev.slot(b2, blk2) || dev.slot(b2, blk2)
            + dev.stride() <= dev.slot(b1, blk1),
        0 <= dev.slot(b1, blk1),
        dev.slot(b1, blk1) + dev.stride() <= batch * dev.blocking().0 * dev.stride(),
{
    lemma_slots_inside(dev, batch, b1, blk1);
    lemma_slots_inside(dev, batch, b2, blk2);
    let nb = dev.blocking().0 as int;
    let s = dev.stride();
    let a1 = b1 * nb + blk1;
    let a2 = b2 * nb + blk2;
    assert(a1 != a2) by (nonlinear_arith)
        requires
            a1 == b1 * nb + blk1,
            a2 == b2 * nb + blk2,
            0 <= blk1 < nb,
            0 <= blk2 < nb,
            b1 != b2 || blk1 != blk2,
    ;
    if a1 < a2 {
        assert(a1 * s + s <= a2 * s) by (nonlinear_arith)
            requires
                a1 + 1 <= a2,
                s >= 1,
        ;
    } else {
        assert(a2 * s + s <= a1 * s) by (nonlinear_arith)
            requires
                a2 + 1 <= a1,
                s >= 1,
        ;
    }
}

/// The device can scan every element but eight-byte ones without kernels for
/// them.
pub proof fn lemma_device_possible(elem_size: usize, f64_kernels: bool)
    ensures
        f64_kernels ==> device_possible(elem_size, f64_kernels),
        elem_size == 4 ==> device_possible(elem_size, f64_kernels),
        !device_possible(8, false),
{
}

/// The flag decides where the device is possible; without one it is not
/// suggested for any work short of the largest count.
pub proof fn lemma_device_suggested(
    n: usize,
    d: usize,
    elem_size: usize,
    f64_kernels: bool,
    engine_flag: Option<&str>,
)
    ensures
        device_suggested(n, d, elem_size, f64_kernels, engine_flag) ==> device_possible(
            elem_size,
            f64_kernels,
        ),
        device_possible(elem_size, f64_kernels) && engine_flag is Some && engine_flag->0@
            == "device"@ ==> device_suggested(n, d, elem_size, f64_kernels, engine_flag),
        engine_flag is Some && engine_flag->0@ == "host"@ ==> !device_suggested(
            n,
            d,
            elem_size,
            f64_kernels,
            engine_flag,
        ),
        engine_flag is None && n * d < usize::MAX && n < usize::MAX ==> !device_suggested(
            n,
            d,
            elem_size,
            f64_kernels,
            engine_flag,
        ),
        device_possible(elem_size, f64_kernels) && engine_flag is None && n * d >= usize::MAX
            ==> device_suggested(n, d, elem_size, f64_kernels, engine_flag),
{
    assert(n * 1 == n);
    reveal_strlit("host");
    reveal_strlit("device");
    assert("host"@.len() != "device"@.len());
}

/// Blocks are wanted for 2048 units over the trials of a batch, and no more; a
/// block has 32 rows at least, and no more than its share of the rows where that
/// is larger.
pub proof fn lemma_device_blocking(n: int, batch: int)
    requires
        n >= 0,
        batch >= 1,
    ensures
        blocks_wanted(batch) * batch >= 2048,
        blocks_wanted(batch) > 1 ==> (blocks_wanted(batch) - 1) * batch < 2048,
        block_rows(n, batch) >= 32,
        block_rows(n, batch) * blocks_wanted(batch) >= n,
        block_rows(n, batch) > 32 ==> (block_rows(n, batch) - 1) * blocks_wanted(batch) < n,
{
    crate::arith::lemma_ceil_div_brackets(2048, batch);
    let w = blocks_wanted(batch);
    crate::arith::lemma_ceil_div_brackets(n, w);
    let (q, r) = (ceil_div_int(n, w), block_rows(n, batch));
    assert(r * w >= n) by (nonlinear_arith)
        requires
            r >= q,
            q * w >= n,
            w >= 1,
    ;
}

/// The partial results of a batch stand trial after trial and block after block,
/// each a count and then two sums for every target.
pub proof fn lemma_slots_in_turn(dev: RansacDevice, b: int, blk: int)
    ensures
        dev.stride() == 1 + 2 * dev.shape().2,
        dev.slot(0, 0) == 0,
        dev.slot(b, blk + 1) == dev.slot(b, blk) + dev.stride(),
        dev.slot(b + 1, 0) == dev.slot(b, dev.blocking().0 as int),
{
    let (nb, s) = (dev.blocking().0 as int, dev.stride());
    assert((0 * nb + 0) * s == 0 && (b * nb + (blk + 1)) * s == (b * nb + blk) * s + s && ((b + 1)
        * nb + 0) * s == (b * nb + nb) * s) by (nonlinear_arith);
}

} // verus!
