//! L-BFGS: when a minimization stops, which curvature pairs it remembers, and
//! the decisions of its strong-Wolfe line search. Values are floating-point
//! bits; the caller evaluates the objective and hands the values in.

use crate::arith::product_is;
use crate::error::{
    first_fault, guard_u32, shape_error, shape_mismatch, u32_fault, verdict, PrimError,
};
use crate::float_order::{
    all_numbers, bits_is_nan, bits_lt, is_nan64, le64, lt64, magnitude64, order_value64,
    scaled_value, INF64, SIGN64,
};
use vstd::arithmetic::power2::{lemma_pow2_unfold, pow2};
use vstd::prelude::*;

verus! {

/// The most curvature pairs that are remembered.
pub const LBFGS_M: usize = 10;

/// The most evaluations of one line search, unless the caller says otherwise.
pub const LBFGS_MAXLS: usize = 50;

/// The iterations of a run that names no limit.
pub const LBFGS_MAXITER: usize = 100;

/// The bits of a value that is not a number.
pub const NAN64: u64 = 0x7FF8_0000_0000_0000;

/// The bits of one, the first step of a line search.
pub const STEP_ONE: u64 = 0x3FF0_0000_0000_0000;

/// What doubling adds to the bits of a power of two.
pub const STEP_DOUBLING: u64 = 0x0010_0000_0000_0000;

/// The bits of ten thousand million, the longest step.
pub const STEP_MAX: u64 = 0x4202_A05F_2000_0000;

/// Doublings that stay below the longest step.
pub const STEP_DOUBLINGS: usize = 33;

/// The bits of 1e-14, below which a bracket has collapsed.
pub const BRACKET_WIDTH_MIN: u64 = 0x3D06_849B_86A1_2B9B;

/// The bits of 1e-10, which the curvature of a remembered pair exceeds.
pub const CURVATURE_MIN: u64 = 0x3DDB_7CDF_D9D7_BDBB;

// ---------------------------------------------------------------------------
// Values
// ---------------------------------------------------------------------------

/// Whether `a <= b` as floating-point values.
fn bits_le(a: u64, b: u64) -> (r: bool)
    ensures
        r == le64(a, b),
{
    !bits_is_nan(a) && !bits_is_nan(b) && !bits_lt(b, a)
}

/// The absolute value.
fn bits_abs(b: u64) -> (r: u64)
    ensures
        r == magnitude64(b),
        r < SIGN64,
{
    if b >= SIGN64 {
        b - SIGN64
    } else {
        b
    }
}

/// The largest absolute value of the first `m` entries, all of which are
/// numbers.
pub open spec fn largest_magnitude(v: Seq<u64>, m: nat) -> int
    decreases m,
{
    if m == 0 {
        0
    } else {
        vstd::math::max(largest_magnitude(v, (m - 1) as nat), magnitude64(v[m - 1]))
    }
}

/// The size of a gradient, which decides convergence: the largest absolute value
/// of its entries, and not a number where one of them is none.
pub open spec fn gradient_size(v: Seq<u64>) -> u64 {
    if all_numbers(v) {
        largest_magnitude(v, v.len()) as u64
    } else {
        NAN64
    }
}

proof fn lemma_magnitude_range(v: Seq<u64>, m: nat)
    requires
        m <= v.len(),
        all_numbers(v),
    ensures
        0 <= largest_magnitude(v, m) <= INF64,
    decreases m,
{
    if m > 0 {
        lemma_magnitude_range(v, (m - 1) as nat);
        assert(!is_nan64(v[m - 1]));
    }
}

/// The size of a gradient.
pub fn max_abs(v: &Vec<u64>) -> (r: u64)
    ensures
        r == gradient_size(v@),
        is_nan64(r) == !all_numbers(v@),
{
    let mut best: u64 = 0;
    let mut i: usize = 0;
    while i < v.len()
        invariant
            i <= v.len(),
            best == largest_magnitude(v@, i as nat),
            best <= INF64,
            forall|k: int| 0 <= k < i ==> !is_nan64(#[trigger] v@[k]),
        decreases v.len() - i,
    {
        if bits_is_nan(v[i]) {
            assert(is_nan64(v@[i as int]));
            return NAN64;
        }
        let a: u64 = bits_abs(v[i]);
        if a > best {
            best = a;
        }
        i = i + 1;
    }
    best
}

/// Convergence means a stationary point: where the size of a gradient is within
/// a tolerance, every entry is a number, and none exceeds the tolerance. A
/// gradient with an entry that is no number is within none.
pub proof fn lemma_converged_is_stationary(v: Seq<u64>, tol: u64, i: int)
    requires
        le64(gradient_size(v), tol),
        0 <= i < v.len(),
    ensures
        !is_nan64(v[i]),
        le64(magnitude64(v[i]) as u64, tol),
{
    if !all_numbers(v) {
        assert(is_nan64(NAN64));
    }
    lemma_max_abs_bounds(v, v.len());
    lemma_magnitude_range(v, v.len());
    assert(magnitude64(v[i]) <= largest_magnitude(v, v.len()));
}

/// The size of a gradient of numbers bounds it: no entry exceeds it, and unless
/// it is zero some entry attains it.
pub proof fn lemma_max_abs_bounds(v: Seq<u64>, m: nat)
    requires
        m <= v.len(),
    ensures
        largest_magnitude(v, m) >= 0,
        forall|i: int|
            0 <= i < m ==> magnitude64(#[trigger] v[i]) <= largest_magnitude(v, m),
        largest_magnitude(v, m) == 0 || exists|i: int|
            0 <= i < m && magnitude64(#[trigger] v[i]) == largest_magnitude(v, m),
    decreases m,
{
    if m > 0 {
        lemma_max_abs_bounds(v, (m - 1) as nat);
        let before = largest_magnitude(v, (m - 1) as nat);
        if largest_magnitude(v, m) != before {
            assert(magnitude64(v[m - 1]) == largest_magnitude(v, m));
        }
    }
}

// ---------------------------------------------------------------------------
// Remembered pairs
// ---------------------------------------------------------------------------

/// A memory after one more pair: the oldest drops out where there is no room.
pub open spec fn remembered<T>(memory: Seq<T>, pair: T) -> Seq<T> {
    if memory.len() == LBFGS_M {
        memory.drop_first().push(pair)
    } else {
        memory.push(pair)
    }
}

/// The curvature pairs of a run, oldest first.
pub struct History<T> {
    pairs: Vec<T>,
}

impl<T> View for History<T> {
    type V = Seq<T>;

    closed spec fn view(&self) -> Seq<T> {
        self.pairs@
    }
}

impl<T> History<T> {
    /// An empty memory.
    pub fn new() -> (r: History<T>)
        ensures
            r@ == Seq::<T>::empty(),
    {
        History { pairs: Vec::new() }
    }

    /// The number of pairs.
    pub fn len(&self) -> (r: usize)
        ensures
            r == self@.len(),
    {
        self.pairs.len()
    }

    /// Pair `i`.
    pub fn get(&self, i: usize) -> (r: &T)
        requires
            i < self@.len(),
        ensures
            *r == self@[i as int],
    {
        &self.pairs[i]
    }

    /// Remembers a pair of the given curvature. A pair without clearly positive
    /// curvature is passed over.
    pub fn record(&mut self, pair: T, curvature: u64)
        requires
            old(self)@.len() <= LBFGS_M,
        ensures
            final(self)@ == if lt64(CURVATURE_MIN, curvature) {
                remembered(old(self)@, pair)
            } else {
                old(self)@
            },
            final(self)@.len() <= LBFGS_M,
    {
        if bits_lt(CURVATURE_MIN, curvature) {
            if self.pairs.len() == LBFGS_M {
                let ghost before = self.pairs@;
                let _oldest: T = self.pairs.remove(0);
                assert(self.pairs@ =~= before.drop_first());
            }
            self.pairs.push(pair);
        }
    }
}

/// The memory after the first `m` of a run's pairs.
pub open spec fn remembered_all<T>(all: Seq<T>, m: nat) -> Seq<T>
    decreases m,
{
    if m == 0 {
        Seq::empty()
    } else {
        remembered(remembered_all(all, (m - 1) as nat), all[m - 1])
    }
}

/// The memory is a window: it holds the last ten pairs of the run, in order, or
/// all of them while there are fewer.
pub proof fn lemma_memory_is_window<T>(all: Seq<T>, m: nat)
    requires
        m <= all.len(),
    ensures
        remembered_all(all, m) == all.subrange(
            vstd::math::max(0, m - LBFGS_M),
            m as int,
        ),
        m <= 10 ==> remembered_all(all, m) == all.take(m as int),
        m > 10 ==> remembered_all(all, m) == all.subrange(m - 10, m as int),
    decreases m,
{
    if m > 0 {
        lemma_memory_is_window(all, (m - 1) as nat);
    }
    assert(remembered_all(all, m) =~= all.subrange(vstd::math::max(0, m - LBFGS_M), m as int));
}

// ---------------------------------------------------------------------------
// Stopping
// ---------------------------------------------------------------------------

/// Why a minimization stopped.
#[derive(Debug, Clone, Copy, PartialEq, Eq, Structural)]
pub enum LbfgsStopReason {
    /// The gradient is small: a stationary point.
    Converged,
    /// The objective no longer decreases.
    FtolStall,
    /// The line search found no step: the point need not be stationary.
    LineSearchFailed,
    /// The iterations ran out.
    MaxIter,
}

/// The outcome of a minimization: the last point, with its value and the size of
/// its gradient, and how the run went.
#[derive(Debug, Clone)]
pub struct LbfgsResult<T> {
    pub x: Vec<T>,
    pub loss: T,
    pub max_grad: T,
    pub iters: usize,
    pub converged: bool,
    pub stop_reason: LbfgsStopReason,
}

/// Refuses an empty starting point.
pub fn validate_start(n: usize) -> (r: Result<(), PrimError>)
    ensures
        r == verdict(
            if n == 0 {
                Some(shape_error("lbfgs.x0", 0, 1, 0))
            } else {
                None
            },
        ),
{
    if n == 0 {
        return Err(shape_mismatch("lbfgs.x0", 0, 1, 0));
    }
    Ok(())
}

/// The progress of a minimization: how many iterations were made of how many,
/// the size of the gradient at the point it is at, the tolerances, and why it
/// stopped, once it has.
#[derive(Debug, Clone, Copy)]
pub struct Minimizer {
    limit: usize,
    iters: usize,
    max_grad: u64,
    gtol: u64,
    ftol: u64,
    reason: Option<LbfgsStopReason>,
}

impl Minimizer {
    /// The most iterations.
    pub closed spec fn limit(self) -> nat {
        self.limit as nat
    }

    /// The iterations made.
    pub closed spec fn made(self) -> nat {
        self.iters as nat
    }

    /// The size of the gradient at the point that the run is at.
    pub closed spec fn size(self) -> u64 {
        self.max_grad
    }

    /// The tolerances on the gradient and on the relative decrease.
    pub closed spec fn tolerances(self) -> (u64, u64) {
        (self.gtol, self.ftol)
    }

    /// Why the run stopped, once it has.
    pub closed spec fn stopped(self) -> Option<LbfgsStopReason> {
        self.reason
    }

    /// A run makes at least one and at most its limit of iterations, and goes on
    /// only while some are left. It has converged exactly where the gradient at
    /// its point is within the tolerance.
    pub open spec fn wf(self) -> bool {
        &&& self.limit() >= 1
        &&& self.made() <= self.limit()
        &&& self.stopped() == Some(LbfgsStopReason::Converged) <==> le64(
            self.size(),
            self.tolerances().0,
        )
        &&& self.stopped() is None ==> self.made() < self.limit()
        &&& self.stopped() == Some(LbfgsStopReason::MaxIter) ==> self.made() == self.limit()
        &&& self.made() == 0 && self.stopped() is Some ==> self.stopped() == Some(
            LbfgsStopReason::Converged,
        )
    }

    /// Starts a run at a point whose gradient has the given size. It stops at
    /// once where that is small.
    pub fn begin(
        n: usize,
        grad_len: usize,
        max_grad: u64,
        gtol: u64,
        ftol: u64,
        maxiter: usize,
    ) -> (r: Result<Minimizer, PrimError>)
        ensures
            if grad_len != n {
                r is Err && r->Err_0 == shape_error("lbfgs.grad", n, 1, grad_len)
            } else {
                &&& r is Ok
                &&& r->Ok_0.wf()
                &&& r->Ok_0.made() == 0
                &&& r->Ok_0.size() == max_grad
                &&& r->Ok_0.limit() == if maxiter == 0 {
                    LBFGS_MAXITER
                } else {
                    maxiter
                }
                &&& maxiter == 0 ==> r->Ok_0.limit() == 100
                &&& r->Ok_0.tolerances() == (gtol, ftol)
                &&& r->Ok_0.stopped() == if le64(max_grad, gtol) {
                    Some(LbfgsStopReason::Converged)
                } else {
                    None
                }
            },
    {
        if grad_len != n {
            return Err(shape_mismatch("lbfgs.grad", n, 1, grad_len));
        }
        let limit: usize = if maxiter == 0 {
            LBFGS_MAXITER
        } else {
            maxiter
        };
        let reason: Option<LbfgsStopReason> = if bits_le(max_grad, gtol) {
            Some(LbfgsStopReason::Converged)
        } else {
            None
        };
        Ok(Minimizer { limit, iters: 0, max_grad, gtol, ftol, reason })
    }

    /// Why the run stopped; `None` while it goes on.
    pub fn stop_reason(&self) -> (r: Option<LbfgsStopReason>)
        ensures
            r == self.stopped(),
    {
        self.reason
    }

    /// The iterations made.
    pub fn iters(&self) -> (r: usize)
        ensures
            r == self.made(),
    {
        self.iters
    }

    /// Whether the run stopped at a stationary point.
    pub fn converged(&self) -> (r: bool)
        ensures
            r == (self.stopped() == Some(LbfgsStopReason::Converged)),
    {
        match self.reason {
            Some(LbfgsStopReason::Converged) => true,
            _ => false,
        }
    }

    /// Makes an iteration whose line search found no step.
    pub fn line_search_failed(&mut self)
        requires
            old(self).wf(),
            old(self).stopped() is None,
        ensures
            final(self).wf(),
            final(self).made() == old(self).made() + 1,
            final(self).stopped() == Some(LbfgsStopReason::LineSearchFailed),
            final(self).size() == old(self).size(),
            final(self).limit() == old(self).limit(),
            final(self).tolerances() == old(self).tolerances(),
    {
        self.iters = self.iters + 1;
        self.reason = Some(LbfgsStopReason::LineSearchFailed);
    }

    /// Makes an iteration to a point whose gradient has the given size;
    /// `decrease` is the relative decrease of the objective.
    pub fn step_taken(&mut self, max_grad: u64, decrease: u64)
        requires
            old(self).wf(),
            old(self).stopped() is None,
        ensures
            final(self).wf(),
            final(self).made() == old(self).made() + 1,
            final(self).size() == max_grad,
            final(self).stopped() == if le64(max_grad, old(self).tolerances().0) {
                Some(LbfgsStopReason::Converged)
            } else if le64(decrease, old(self).tolerances().1) {
                Some(LbfgsStopReason::FtolStall)
            } else if old(self).made() + 1 == old(self).limit() {
                Some(LbfgsStopReason::MaxIter)
            } else {
                None
            },
            final(self).limit() == old(self).limit(),
            final(self).tolerances() == old(self).tolerances(),
    {
        self.iters = self.iters + 1;
        self.max_grad = max_grad;
        if bits_le(max_grad, self.gtol) {
            self.reason = Some(LbfgsStopReason::Converged);
        } else if bits_le(decrease, self.ftol) {
            self.reason = Some(LbfgsStopReason::FtolStall);
        } else if self.iters == self.limit {
            self.reason = Some(LbfgsStopReason::MaxIter);
        }
    }

    /// The outcome of a run that has stopped, at the point that it is at: `x`
    /// with its value and gradient.
    pub fn finish(&self, x: Vec<u64>, loss: u64, grad: &Vec<u64>) -> (r: LbfgsResult<u64>)
        requires
            self.wf(),
            self.stopped() is Some,
            self.size() == gradient_size(grad@),
        ensures
            r.x@ == x@,
            r.loss == loss,
            r.max_grad == gradient_size(grad@),
            r.iters == self.made(),
            r.stop_reason == self.stopped()->0,
            r.converged == (r.stop_reason == LbfgsStopReason::Converged),
            r.converged == le64(r.max_grad, self.tolerances().0),
            r.iters <= self.limit(),
            r.stop_reason == LbfgsStopReason::MaxIter ==> r.iters == self.limit(),
            r.iters == 0 ==> r.converged,
    {
        let stop_reason: LbfgsStopReason = match self.reason {
            Some(reason) => reason,
            None => LbfgsStopReason::MaxIter,
        };
        LbfgsResult {
            x,
            loss,
            max_grad: max_abs(grad),
            iters: self.iters,
            converged: self.converged(),
            stop_reason,
        }
    }
}

/// A run always stops: while it goes on, iterations are left, and each one made
/// leaves fewer.
pub proof fn lemma_run_stops(run: Minimizer)
    requires
        run.wf(),
        run.made() == run.limit(),
    ensures
        run.stopped() is Some,
{
}

/// Whether a search direction has to be replaced by the steepest descent: it
/// does not descend.
pub fn direction_rejected(slope: u64) -> (r: bool)
    ensures
        r == le64(0, slope),
{
    bits_le(0, slope)
}

// ---------------------------------------------------------------------------
// Line search
// ---------------------------------------------------------------------------

/// What the objective is at a step: its value, the largest value that decreases
/// enough there, its slope along the direction, and the product of that slope
/// with the signed width of the bracket.
#[derive(Debug, Clone, Copy, PartialEq, Eq)]
pub struct Probe {
    pub phi: u64,
    pub bound: u64,
    pub slope: u64,
    pub turn: u64,
}

/// The stage of a line search.
#[derive(Debug, Clone, Copy, PartialEq, Eq)]
pub enum Stage {
    /// The step doubles; the last one was `t_prev`, with value `phi_prev`.
    Grow { t_prev: u64, phi_prev: u64, t: u64 },
    /// The longest step is tried once.
    LastTry,
    /// A minimizer lies between `t_lo`, with value `phi_lo`, and `t_hi`.
    Zoom { t_lo: u64, phi_lo: u64, t_hi: u64 },
}

/// A strong-Wolfe line search.
#[derive(Debug, Clone, Copy, PartialEq, Eq)]
pub struct LineSearch {
    /// The value at the start.
    pub phi0: u64,
    /// The steepest slope that is accepted.
    pub flat: u64,
    pub maxls: usize,
    /// Evaluations made.
    pub evals: usize,
    pub stage: Stage,
}

/// What a line search asks for.
#[derive(Debug, Clone, Copy, PartialEq, Eq)]
pub enum Request {
    /// The objective at this step.
    At(u64),
    /// The objective midway between two steps.
    Between(u64, u64),
    /// Nothing: the evaluations ran out, and there is no step.
    GiveUp,
}

/// What a line search makes of a probe.
#[derive(Debug, Clone, Copy, PartialEq, Eq)]
pub enum Outcome {
    /// The probed step is accepted.
    Accept,
    /// There is no step.
    Fail,
    /// The search goes on.
    Go(LineSearch),
    /// The search goes on unless its bracket has collapsed.
    Narrowed(LineSearch),
}

impl LineSearch {
    /// The growing step is a power of two below the longest step, one doubling
    /// for each evaluation.
    pub open spec fn wf(self) -> bool {
        match self.stage {
            Stage::Grow { t_prev, phi_prev, t } => self.evals <= STEP_DOUBLINGS && t == STEP_ONE
                + self.evals * STEP_DOUBLING,
            Stage::LastTry => true,
            Stage::Zoom { t_lo, phi_lo, t_hi } => self.evals >= 1,
        }
    }

    /// While the step grows, the one before it is shorter.
    pub open spec fn lengthens(self) -> bool {
        self.stage is Grow ==> lt64(self.stage->t_prev, self.stage->t)
    }

    /// Evaluations that are left.
    pub open spec fn left(self) -> int {
        self.maxls - self.evals
    }

    /// Starts a search along a direction of the given slope; `None` where the
    /// direction does not descend.
    pub fn start(phi0: u64, slope0: u64, flat: u64, maxls: usize) -> (r: Option<LineSearch>)
        ensures
            if le64(0, slope0) {
                r is None
            } else {
                &&& r is Some
                &&& r->0.wf()
                &&& r->0.lengthens()
                &&& r->0 == (LineSearch {
                    phi0,
                    flat,
                    maxls,
                    evals: 0,
                    stage: Stage::Grow { t_prev: 0, phi_prev: phi0, t: STEP_ONE },
                })
            },
    {
        if bits_le(0, slope0) {
            return None;
        }
        Some(
            LineSearch {
                phi0,
                flat,
                maxls,
                evals: 0,
                stage: Stage::Grow { t_prev: 0, phi_prev: phi0, t: STEP_ONE },
            },
        )
    }

    /// What the search asks for next.
    pub open spec fn asks(self) -> Request {
        if self.evals >= self.maxls {
            Request::GiveUp
        } else {
            match self.stage {
                Stage::Grow { t_prev, phi_prev, t } => Request::At(t),
                Stage::LastTry => Request::At(STEP_MAX),
                Stage::Zoom { t_lo, phi_lo, t_hi } => Request::Between(t_lo, t_hi),
            }
        }
    }

    /// What the search asks for next.
    pub fn request(&self) -> (r: Request)
        ensures
            r == self.asks(),
    {
        if self.evals >= self.maxls {
            return Request::GiveUp;
        }
        match self.stage {
            Stage::Grow { t_prev: _, phi_prev: _, t } => Request::At(t),
            Stage::LastTry => Request::At(STEP_MAX),
            Stage::Zoom { t_lo, phi_lo: _, t_hi } => Request::Between(t_lo, t_hi),
        }
    }

    /// The same search in another stage, with one more evaluation made.
    pub open spec fn moved(self, stage: Stage) -> LineSearch {
        LineSearch {
            phi0: self.phi0,
            flat: self.flat,
            maxls: self.maxls,
            evals: (self.evals + 1) as usize,
            stage,
        }
    }

    /// Whether the slope at the probe is flat enough.
    pub open spec fn flat_at(self, probe: Probe) -> bool {
        le64(magnitude64(probe.slope) as u64, self.flat)
    }

    /// What the search makes of a probe at step `t`.
    pub open spec fn outcome(self, t: u64, probe: Probe) -> Outcome {
        match self.stage {
            Stage::Grow { t_prev, phi_prev, t: asked } => if lt64(probe.bound, probe.phi) || (
            self.evals >= 1 && le64(phi_prev, probe.phi)) {
                Outcome::Go(
                    self.moved(Stage::Zoom { t_lo: t_prev, phi_lo: phi_prev, t_hi: asked }),
                )
            } else if self.flat_at(probe) {
                Outcome::Accept
            } else if le64(0, probe.slope) {
                Outcome::Go(
                    self.moved(Stage::Zoom { t_lo: asked, phi_lo: probe.phi, t_hi: t_prev }),
                )
            } else if self.evals == STEP_DOUBLINGS {
                Outcome::Go(self.moved(Stage::LastTry))
            } else {
                Outcome::Go(
                    self.moved(
                        Stage::Grow {
                            t_prev: asked,
                            phi_prev: probe.phi,
                            t: (asked + STEP_DOUBLING) as u64,
                        },
                    ),
                )
            },
            Stage::LastTry => if lt64(probe.phi, self.phi0) {
                Outcome::Accept
            } else {
                Outcome::Fail
            },
            Stage::Zoom { t_lo, phi_lo, t_hi } => if lt64(probe.bound, probe.phi) || le64(
                phi_lo,
                probe.phi,
            ) {
                Outcome::Narrowed(self.moved(Stage::Zoom { t_lo, phi_lo, t_hi: t }))
            } else if self.flat_at(probe) {
                Outcome::Accept
            } else {
                Outcome::Narrowed(
                    self.moved(
                        Stage::Zoom {
                            t_lo: t,
                            phi_lo: probe.phi,
                            t_hi: if le64(0, probe.turn) {
                                t_lo
                            } else {
                                t_hi
                            },
                        },
                    ),
                )
            },
        }
    }

    /// Decides on a probe at step `t`, which the search asked for.
    pub fn observe(&self, t: u64, probe: Probe) -> (r: Outcome)
        requires
            self.wf(),
            self.asks() !is GiveUp,
        ensures
            r == self.outcome(t, probe),
            r matches Outcome::Go(s) ==> s.wf() && s.lengthens(),
            r matches Outcome::Narrowed(s) ==> s.wf() && s.lengthens(),
    {
        let slope: u64 = bits_abs(probe.slope);
        let is_flat: bool = bits_le(slope, self.flat);
        match self.stage {
            Stage::Grow { t_prev, phi_prev, t: asked } => {
                let next: usize = self.evals + 1;
                if bits_lt(probe.bound, probe.phi) || (self.evals >= 1 && bits_le(
                    phi_prev,
                    probe.phi,
                )) {
                    return Outcome::Go(
                        LineSearch {
                            evals: next,
                            stage: Stage::Zoom { t_lo: t_prev, phi_lo: phi_prev, t_hi: asked },
                            ..*self
                        },
                    );
                }
                if is_flat {
                    return Outcome::Accept;
                }
                if bits_le(0, probe.slope) {
                    return Outcome::Go(
                        LineSearch {
                            evals: next,
                            stage: Stage::Zoom { t_lo: asked, phi_lo: probe.phi, t_hi: t_prev },
                            ..*self
                        },
                    );
                }
                let doubled: u64 = asked + STEP_DOUBLING;
                if doubled >= STEP_MAX {
                    return Outcome::Go(
                        LineSearch { evals: next, stage: Stage::LastTry, ..*self },
                    );
                }
                Outcome::Go(
                    LineSearch {
                        evals: next,
                        stage: Stage::Grow { t_prev: asked, phi_prev: probe.phi, t: doubled },
                        ..*self
                    },
                )
            },
            Stage::LastTry => {
                if bits_lt(probe.phi, self.phi0) {
                    Outcome::Accept
                } else {
                    Outcome::Fail
                }
            },
            Stage::Zoom { t_lo, phi_lo, t_hi } => {
                let next: usize = self.evals + 1;
                if bits_lt(probe.bound, probe.phi) || bits_le(phi_lo, probe.phi) {
                    return Outcome::Narrowed(
                        LineSearch {
                            evals: next,
                            stage: Stage::Zoom { t_lo, phi_lo, t_hi: t },
                            ..*self
                        },
                    );
                }
                if is_flat {
                    return Outcome::Accept;
                }
                let far: u64 = if bits_le(0, probe.turn) {
                    t_lo
                } else {
                    t_hi
                };
                Outcome::Narrowed(
                    LineSearch {
                        evals: next,
                        stage: Stage::Zoom { t_lo: t, phi_lo: probe.phi, t_hi: far },
                        ..*self
                    },
                )
            },
        }
    }

    /// Decides on a narrowed bracket of the given width: one that has collapsed
    /// ends the search, with the last probe if its value is below the start.
    pub fn settle(&self, width: u64, phi: u64) -> (r: Outcome)
        ensures
            r == if !lt64(width, BRACKET_WIDTH_MIN) {
                Outcome::Go(*self)
            } else if lt64(phi, self.phi0) {
                Outcome::Accept
            } else {
                Outcome::Fail
            },
    {
        if !bits_lt(width, BRACKET_WIDTH_MIN) {
            return Outcome::Go(*self);
        }
        if bits_lt(phi, self.phi0) {
            Outcome::Accept
        } else {
            Outcome::Fail
        }
    }
}

/// A line search ends within its limit: an evaluation is asked for only while
/// one is left, and whatever the objective is, a probe that does not end the
/// search leaves fewer.
pub proof fn lemma_search_ends(search: LineSearch, t: u64, probe: Probe)
    requires
        search.wf(),
        search.asks() !is GiveUp,
    ensures
        search.evals < search.maxls,
        search.outcome(t, probe) matches Outcome::Go(s) ==> s.evals == search.evals + 1 && s.maxls
            == search.maxls && 0 <= s.left() < search.left(),
        search.outcome(t, probe) matches Outcome::Narrowed(s) ==> s.evals == search.evals + 1
            && s.maxls == search.maxls && 0 <= s.left() < search.left(),
{
}

/// An accepted step decreases enough and is flat enough, or it is the longest
/// step and lies below the start.
pub proof fn lemma_accepted_step(search: LineSearch, t: u64, probe: Probe)
    requires
        search.outcome(t, probe) is Accept,
    ensures
        !lt64(probe.bound, probe.phi) && search.flat_at(probe) || (search.stage is LastTry && lt64(
            probe.phi,
            search.phi0,
        )),
{
}

/// How the objective changes from one step towards another, given its slope at
/// the first: positive where it rises, negative where it falls.
pub open spec fn rise(slope: u64, from: u64, to: u64) -> int {
    order_value64(slope) * (order_value64(to) - order_value64(from))
}

/// Whether step `t` lies between two others, in either order.
pub open spec fn lies_within(t: u64, a: u64, b: u64) -> bool {
    le64(a, t) && le64(t, b) || le64(b, t) && le64(t, a)
}

/// Whether the turn of a probe has the sign of its slope times the width of the
/// bracket.
pub open spec fn turn_fits(probe: Probe, t_lo: u64, t_hi: u64) -> bool {
    le64(0, probe.turn) <==> rise(probe.slope, t_lo, t_hi) >= 0
}

proof fn lemma_turned(slope: u64, t: u64, a: u64, b: u64)
    requires
        lies_within(t, a, b),
    ensures
        rise(slope, a, b) >= 0 ==> rise(slope, t, a) <= 0,
        rise(slope, a, b) <= 0 ==> rise(slope, t, b) <= 0,
{
    let s = order_value64(slope);
    let (x, y, z) = (order_value64(a), order_value64(t), order_value64(b));
    assert((s * (z - x) >= 0 ==> s * (x - y) <= 0) && (s * (z - x) <= 0 ==> s * (z - y) <= 0))
        by (nonlinear_arith)
        requires
            x <= y <= z || z <= y <= x,
    ;
}

/// A bracket points downhill from its low end: the objective does not rise from
/// there towards the high end. While the step grows the objective falls at the
/// last step. `slope_lo` is the slope at the low end, or at the last growing
/// step; the low end of the next bracket is the old one, or the probed step.
pub proof fn lemma_bracket_points_downhill(
    search: LineSearch,
    slope_lo: u64,
    t: u64,
    probe: Probe,
)
    requires
        search.wf(),
        search.lengthens(),
        search.asks() !is GiveUp,
        !is_nan64(probe.slope),
        search.stage matches Stage::Grow { t_prev, phi_prev, t: asked } ==> t == asked && lt64(
            slope_lo,
            0,
        ),
        search.stage matches Stage::Zoom { t_lo, phi_lo, t_hi } ==> rise(slope_lo, t_lo, t_hi) <= 0
            && lies_within(t, t_lo, t_hi) && turn_fits(probe, t_lo, t_hi),
    ensures
        ({
            let next = match search.outcome(t, probe) {
                Outcome::Go(s) => Some(s.stage),
                Outcome::Narrowed(s) => Some(s.stage),
                _ => None,
            };
            &&& next matches Some(Stage::Zoom { t_lo, phi_lo, t_hi }) ==> (rise(
                probe.slope,
                t_lo,
                t_hi,
            ) <= 0 && t_lo == t) || (rise(slope_lo, t_lo, t_hi) <= 0 && t_hi == t)
            &&& next matches Some(Stage::Grow { t_prev, phi_prev, t: longer }) ==> lt64(
                probe.slope,
                0,
            ) && t_prev == t && lt64(t, longer)
        }),
{
    match search.stage {
        Stage::Grow { t_prev, phi_prev, t: asked } => {
            let (s, p) = (order_value64(slope_lo), order_value64(probe.slope));
            let w = order_value64(asked) - order_value64(t_prev);
            assert(s * w <= 0 && (p >= 0 ==> p * (-w) <= 0)) by (nonlinear_arith)
                requires
                    s <= 0,
                    w >= 0,
            ;
        },
        Stage::LastTry => {},
        Stage::Zoom { t_lo, phi_lo, t_hi } => {
            lemma_turned(probe.slope, t, t_lo, t_hi);
            let s = order_value64(slope_lo);
            let (x, y, z) = (order_value64(t_lo), order_value64(t), order_value64(t_hi));
            assert(s * (y - x) <= 0) by (nonlinear_arith)
                requires
                    x <= y <= z || z <= y <= x,
                    s * (z - x) <= 0,
            ;
        },
    }
}

/// When the low end of a bracket moves to the probed step, the other end is the
/// one that the objective falls towards: the old low end where it does not fall
/// along the bracket, the old high end where it does.
pub proof fn lemma_bracket_keeps_the_falling_side(search: LineSearch, t: u64, probe: Probe)
    requires
        search.stage is Zoom,
        search.stage->Zoom_t_lo != t,
        turn_fits(probe, search.stage->Zoom_t_lo, search.stage->t_hi),
        search.outcome(t, probe) is Narrowed,
        search.outcome(t, probe)->Narrowed_0.stage is Zoom,
        search.outcome(t, probe)->Narrowed_0.stage->Zoom_t_lo == t,
    ensures
        ({
            let far = search.outcome(t, probe)->Narrowed_0.stage->t_hi;
            let along = rise(probe.slope, search.stage->Zoom_t_lo, search.stage->t_hi);
            &&& along >= 0 ==> far == search.stage->Zoom_t_lo
            &&& along < 0 ==> far == search.stage->t_hi
        }),
{
}

/// The low end of a bracket holds the lowest value that decreases enough: it
/// moves only to a step that is lower and decreases enough, and a probe that
/// does not becomes the high end.
pub proof fn lemma_low_end_falls(search: LineSearch, t: u64, probe: Probe)
    requires
        search.stage is Zoom,
        search.outcome(t, probe) is Narrowed,
    ensures
        search.outcome(t, probe)->Narrowed_0.stage is Zoom,
        ({
            let old_lo = (search.stage->Zoom_t_lo, search.stage->phi_lo);
            let s = search.outcome(t, probe)->Narrowed_0.stage;
            let new_lo = (s->Zoom_t_lo, s->phi_lo);
            &&& lt64(probe.bound, probe.phi) || le64(search.stage->phi_lo, probe.phi)
                ==> new_lo == old_lo && s->t_hi == t
            &&& !lt64(probe.bound, probe.phi) && lt64(probe.phi, search.stage->phi_lo)
                ==> new_lo == (t, probe.phi)
        }),
{
}

/// A growing step that goes too far closes a bracket: its low end is the last
/// step that was fine and its high end the one that was not. A step past the
/// minimizer becomes the low end, with the last step behind it. While neither
/// holds the step grows.
pub proof fn lemma_growth_closes_a_bracket(search: LineSearch, probe: Probe)
    requires
        search.wf(),
        search.stage is Grow,
    ensures
        ({
            let (last, phi_last, t) = (
                search.stage->t_prev,
                search.stage->phi_prev,
                search.stage->t,
            );
            let too_high = lt64(probe.bound, probe.phi) || search.evals > 0 && le64(
                phi_last,
                probe.phi,
            );
            let r = search.outcome(t, probe);
            &&& too_high ==> r is Go && r->Go_0.stage == (Stage::Zoom {
                t_lo: last,
                phi_lo: phi_last,
                t_hi: t,
            })
            &&& !too_high && r !is Accept && lt64(0, probe.slope) ==> r is Go && r->Go_0.stage == (
            Stage::Zoom { t_lo: t, phi_lo: probe.phi, t_hi: last })
            &&& !too_high && r !is Accept && lt64(probe.slope, 0) ==> r is Go && (
            r->Go_0.stage is LastTry || r->Go_0.stage is Grow && r->Go_0.stage->t_prev == t
                && r->Go_0.stage->phi_prev == probe.phi && lt64(t, r->Go_0.stage->t) && lt64(
                r->Go_0.stage->t,
                STEP_MAX,
            ))
            &&& r matches Outcome::Go(s) ==> (s.stage is LastTry <==> !too_high && lt64(
                STEP_MAX,
                (t + STEP_DOUBLING) as u64,
            ) && !le64(0, probe.slope))
        }),
{
}

/// A probed step is accepted exactly when it meets the strong-Wolfe conditions
/// and is lower than the steps before it: it decreases enough, and its slope is
/// no steeper than the flat one in either direction. The longest step is
/// accepted exactly when it is lower than the start.
pub proof fn lemma_accepts_strong_wolfe(search: LineSearch, t: u64, probe: Probe)
    requires
        search.wf(),
    ensures
        ({
            let wolfe = !lt64(probe.bound, probe.phi) && !is_nan64(probe.slope) && !is_nan64(
                search.flat,
            ) && order_value64(probe.slope) <= order_value64(search.flat) && -order_value64(
                probe.slope,
            ) <= order_value64(search.flat);
            match search.stage {
                Stage::Grow { t_prev, phi_prev, t: asked } => search.outcome(t, probe) is Accept
                    <==> wolfe && (search.evals == 0 || !le64(phi_prev, probe.phi)),
                Stage::LastTry => search.outcome(t, probe) is Accept <==> lt64(
                    probe.phi,
                    search.phi0,
                ),
                Stage::Zoom { t_lo, phi_lo, t_hi } => search.outcome(t, probe) is Accept
                    <==> wolfe && !le64(phi_lo, probe.phi),
            }
        }),
{
}

/// What a search asks for: nothing once its evaluations are used up; the growing
/// step, the longest step, or the middle of the bracket.
pub proof fn lemma_search_asks(search: LineSearch)
    ensures
        search.asks() == Request::GiveUp <==> search.evals >= search.maxls,
        search.evals < search.maxls && search.stage is Grow ==> search.asks() == Request::At(
            search.stage->t,
        ),
        search.evals < search.maxls && search.stage is LastTry ==> search.asks() == Request::At(
            STEP_MAX,
        ),
        search.evals < search.maxls && search.stage is Zoom ==> search.asks() == Request::Between(
            search.stage->Zoom_t_lo,
            search.stage->t_hi,
        ),
{
}

/// A search keeps what it started from: a probe changes neither the start's
/// value nor the flat slope nor the limit.
pub proof fn lemma_search_keeps_its_start(search: LineSearch, t: u64, probe: Probe)
    requires
        search.asks() !is GiveUp,
    ensures
        search.outcome(t, probe) matches Outcome::Go(s) ==> s.phi0 == search.phi0 && s.flat
            == search.flat && s.maxls == search.maxls,
        search.outcome(t, probe) matches Outcome::Narrowed(s) ==> s.phi0 == search.phi0 && s.flat
            == search.flat && s.maxls == search.maxls,
{
}

// ---------------------------------------------------------------------------
// Softmax objective
// ---------------------------------------------------------------------------

/// Why the operands of a softmax objective are refused.
pub open spec fn softmax_fault(
    x_len: usize,
    y_len: usize,
    w_len: usize,
    b_len: usize,
    n: usize,
    d: usize,
    k: usize,
) -> Option<PrimError> {
    if n == 0 || d == 0 || k == 0 || n * d != x_len {
        Some(shape_error("lbfgs.x", n, d, x_len))
    } else if y_len != n {
        Some(shape_error("lbfgs.y", n, 1, y_len))
    } else if k * d != w_len {
        Some(shape_error("lbfgs.w", k, d, w_len))
    } else if b_len != k {
        Some(shape_error("lbfgs.b", k, 1, b_len))
    } else {
        first_fault(
            u32_fault("lbfgs.n", n),
            first_fault(u32_fault("lbfgs.d", d), u32_fault("lbfgs.k", k)),
        )
    }
}

/// Refuses the operands of a softmax objective that do not match its shape.
pub fn validate_softmax_geometry(
    x_len: usize,
    y_len: usize,
    w_len: usize,
    b_len: usize,
    n: usize,
    d: usize,
    k: usize,
) -> (r: Result<(), PrimError>)
    ensures
        r == verdict(softmax_fault(x_len, y_len, w_len, b_len, n, d, k)),
        r is Ok <==> {
            &&& n >= 1 && d >= 1 && k >= 1
            &&& x_len == n * d && y_len == n && w_len == k * d && b_len == k
            &&& n <= u32::MAX && d <= u32::MAX && k <= u32::MAX
        },
{
    if n == 0 || d == 0 || k == 0 || !product_is(n, d, x_len) {
        return Err(shape_mismatch("lbfgs.x", n, d, x_len));
    }
    if y_len != n {
        return Err(shape_mismatch("lbfgs.y", n, 1, y_len));
    }
    if !product_is(k, d, w_len) {
        return Err(shape_mismatch("lbfgs.w", k, d, w_len));
    }
    if b_len != k {
        return Err(shape_mismatch("lbfgs.b", k, 1, b_len));
    }
    match guard_u32("lbfgs.n", n) {
        Err(e) => {
            return Err(e);
        },
        Ok(()) => {},
    }
    match guard_u32("lbfgs.d", d) {
        Err(e) => {
            return Err(e);
        },
        Ok(()) => {},
    }
    guard_u32("lbfgs.k", k)
}

/// Whether the softmax objective is computed on the host: eight-byte elements,
/// and a device without exponentials and logarithms for them.
pub fn softmax_on_host(elem_size: usize, f64_transcendentals: bool) -> (r: bool)
    ensures
        r == (elem_size == 8 && !f64_transcendentals),
{
    elem_size == 8 && !f64_transcendentals
}

/// A refused softmax objective names the first operand that does not match: the
/// samples, the labels, the weights and the intercepts, in this order.
pub proof fn lemma_softmax_refusals(
    x_len: usize,
    y_len: usize,
    w_len: usize,
    b_len: usize,
    n: usize,
    d: usize,
    k: usize,
)
    ensures
        (n == 0 || d == 0 || k == 0 || x_len != n * d)
            ==> softmax_fault(x_len, y_len, w_len, b_len, n, d, k) == Some(
            PrimError::ShapeMismatch { operand: "lbfgs.x", rows: n, cols: d, len: x_len },
        ),
        !(n == 0 || d == 0 || k == 0 || x_len != n * d) && y_len != n
            ==> softmax_fault(x_len, y_len, w_len, b_len, n, d, k) == Some(
            PrimError::ShapeMismatch { operand: "lbfgs.y", rows: n, cols: 1, len: y_len },
        ),
        !(n == 0 || d == 0 || k == 0 || x_len != n * d) && y_len == n && w_len != k * d
            ==> softmax_fault(x_len, y_len, w_len, b_len, n, d, k) == Some(
            PrimError::ShapeMismatch { operand: "lbfgs.w", rows: k, cols: d, len: w_len },
        ),
        !(n == 0 || d == 0 || k == 0 || x_len != n * d) && y_len == n && w_len == k * d
            && b_len != k ==> softmax_fault(x_len, y_len, w_len, b_len, n, d, k) == Some(
            PrimError::ShapeMismatch { operand: "lbfgs.b", rows: k, cols: 1, len: b_len },
        ),
        !(n == 0 || d == 0 || k == 0 || x_len != n * d) && y_len == n && w_len == k * d
            && b_len == k && n > u32::MAX
            ==> softmax_fault(x_len, y_len, w_len, b_len, n, d, k) == Some(
            PrimError::ShapeMismatch { operand: "lbfgs.n", rows: n, cols: 0, len: 0xFFFF_FFFF },
        ),
        !(n == 0 || d == 0 || k == 0 || x_len != n * d) && y_len == n && w_len == k * d
            && b_len == k && n <= u32::MAX && d > u32::MAX
            ==> softmax_fault(x_len, y_len, w_len, b_len, n, d, k) == Some(
            PrimError::ShapeMismatch { operand: "lbfgs.d", rows: d, cols: 0, len: 0xFFFF_FFFF },
        ),
        !(n == 0 || d == 0 || k == 0 || x_len != n * d) && y_len == n && w_len == k * d
            && b_len == k && n <= u32::MAX && d <= u32::MAX && k > u32::MAX
            ==> softmax_fault(x_len, y_len, w_len, b_len, n, d, k) == Some(
            PrimError::ShapeMismatch { operand: "lbfgs.k", rows: k, cols: 0, len: 0xFFFF_FFFF },
        ),
{
}

/// A growing step doubles: the pattern after a step has twice its value. The
/// first step is one, and the longest ten thousand million times as long.
pub proof fn lemma_steps_double(t: u64)
    requires
        0x10_0000_0000_0000 <= t < 0x7FE0_0000_0000_0000,
    ensures
        scaled_value((t + STEP_DOUBLING) as u64) == 2 * scaled_value(t),
        scaled_value(STEP_MAX) == 10_000_000_000 * scaled_value(STEP_ONE),
        STEP_ONE == 0x3FF0_0000_0000_0000,
{
    let u: int = 0x10_0000_0000_0000;
    let (e, f) = (t as int / u, t as int % u);
    assert((t + u) / u == e + 1 && (t + u) % u == f);
    lemma_pow2_unfold(e as nat);
    let p = pow2((e - 1) as nat) as int;
    assert((u + f) * (2 * p) == 2 * ((u + f) * p)) by (nonlinear_arith);
    let m = STEP_MAX as int;
    assert(m / u == 1056 && m % u == 0x2_A05F_2000_0000);
    let one = STEP_ONE as int;
    assert(one / u == 1023 && one % u == 0);
    vstd::arithmetic::power2::lemma_pow2_adds(1022, 33);
    vstd::arithmetic::power2::lemma2_to64();
    lemma_pow2_unfold(33);
    let q = pow2(1022) as int;
    assert(pow2(1055) == q * 8_589_934_592);
    assert(0x12_A05F_2000_0000 * (q * 8_589_934_592) == 10_000_000_000 * (0x10_0000_0000_0000 * q))
        by (nonlinear_arith);
}

} // verus!
