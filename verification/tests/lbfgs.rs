use mlrs_backend::error::PrimError;
use mlrs_backend::lbfgs::{
    direction_rejected, max_abs, softmax_on_host, validate_softmax_geometry, validate_start,
    History, LbfgsStopReason, LineSearch, Minimizer, Outcome, Probe, Request, Stage,
    BRACKET_WIDTH_MIN, CURVATURE_MIN, LBFGS_MAXLS, STEP_MAX, STEP_ONE,
};

fn shape(operand: &'static str, rows: usize, cols: usize, len: usize) -> PrimError {
    PrimError::ShapeMismatch { operand, rows, cols, len }
}

#[test]
fn step_constants_are_the_stated_numbers() {
    assert_eq!(STEP_ONE, 1.0f64.to_bits());
    assert_eq!(STEP_MAX, 1e10f64.to_bits());
    assert_eq!(BRACKET_WIDTH_MIN, 1e-14f64.to_bits());
    assert_eq!(CURVATURE_MIN, 1e-10f64.to_bits());
}

#[test]
fn the_size_of_a_gradient_is_its_largest_entry() {
    let size = |g: &[f64]| max_abs(&g.iter().map(|v| v.to_bits()).collect());
    assert_eq!(size(&[1.0, -3.0, 2.0]), 3.0f64.to_bits());
    assert_eq!(size(&[1.0, f64::NEG_INFINITY]), f64::INFINITY.to_bits());
    assert!(f64::from_bits(size(&[1.0, -3.0, f64::NAN, 2.0])).is_nan());
    assert!(f64::from_bits(size(&[-f64::NAN])).is_nan());
    assert_eq!(max_abs(&vec![]), 0.0f64.to_bits());
    assert_eq!(max_abs(&vec![(-0.0f64).to_bits()]), 0.0f64.to_bits());
}

#[test]
fn the_memory_holds_the_last_ten_pairs() {
    let mut h: History<usize> = History::new();
    for i in 0..13 {
        h.record(i, 1.0f64.to_bits());
    }
    assert_eq!(h.len(), 10);
    let held: Vec<usize> = (0..10).map(|i| *h.get(i)).collect();
    assert_eq!(held, (3..13).collect::<Vec<usize>>());
    h.record(99, 1e-10f64.to_bits());
    h.record(99, f64::NAN.to_bits());
    h.record(99, (-1.0f64).to_bits());
    assert_eq!(*h.get(9), 12);
}

#[test]
fn a_run_stops_for_the_stated_reasons() {
    let (g, f) = (1e-4f64.to_bits(), 1e-9f64.to_bits());
    let big = 1.0f64.to_bits();
    let run = Minimizer::begin(3, 3, 1e-5f64.to_bits(), g, f, 5).unwrap();
    assert_eq!(run.stop_reason(), Some(LbfgsStopReason::Converged));
    assert!(run.converged() && run.iters() == 0);

    let mut run = Minimizer::begin(3, 3, big, g, f, 2).unwrap();
    run.step_taken(big, big);
    assert_eq!((run.stop_reason(), run.iters()), (None, 1));
    run.step_taken(big, big);
    assert_eq!((run.stop_reason(), run.iters()), (Some(LbfgsStopReason::MaxIter), 2));

    let mut run = Minimizer::begin(3, 3, big, g, f, 2).unwrap();
    run.step_taken(big, 0);
    assert_eq!(run.stop_reason(), Some(LbfgsStopReason::FtolStall));
    assert!(!run.converged());

    let mut run = Minimizer::begin(3, 3, big, g, f, 2).unwrap();
    run.line_search_failed();
    assert_eq!(run.stop_reason(), Some(LbfgsStopReason::LineSearchFailed));

    let mut run = Minimizer::begin(3, 3, big, g, f, 1).unwrap();
    run.step_taken(1e-4f64.to_bits(), 0);
    assert_eq!(run.stop_reason(), Some(LbfgsStopReason::Converged));

    let mut run = Minimizer::begin(3, 3, f64::NAN.to_bits(), g, f, 0).unwrap();
    let mut made = 0;
    while run.stop_reason().is_none() {
        run.step_taken(f64::NAN.to_bits(), f64::NAN.to_bits());
        made += 1;
    }
    assert_eq!(made, 100);
}

#[test]
fn starts_are_checked() {
    assert_eq!(validate_start(0), Err(shape("lbfgs.x0", 0, 1, 0)));
    assert_eq!(validate_start(1), Ok(()));
    assert_eq!(
        Minimizer::begin(3, 2, 0, 0, 0, 1).err(),
        Some(shape("lbfgs.grad", 3, 1, 2))
    );
    assert!(direction_rejected(0.0f64.to_bits()));
    assert!(!direction_rejected((-1.0f64).to_bits()));
}

#[test]
fn a_gradient_of_nan_never_converges() {
    let (g, f) = (1e-4f64.to_bits(), 1e-9f64.to_bits());
    let nan = vec![f64::NAN.to_bits()];
    let mut run = Minimizer::begin(1, 1, max_abs(&nan), g, f, 100).unwrap();
    assert_eq!(run.stop_reason(), None);
    assert_eq!(search(&|_| (f64::NAN, f64::NAN)), (None, 35));
    run.line_search_failed();
    let r = run.finish(vec![1.0f64.to_bits()], f64::NAN.to_bits(), &nan);
    assert!(!r.converged && f64::from_bits(r.max_grad).is_nan());
    assert_eq!((r.stop_reason, r.iters), (LbfgsStopReason::LineSearchFailed, 1));
}

#[test]
fn a_result_belongs_to_the_last_point() {
    let (g, f) = (1e-4f64.to_bits(), 1e-9f64.to_bits());
    let mut run = Minimizer::begin(2, 2, 1.0f64.to_bits(), g, f, 5).unwrap();
    let grad: Vec<u64> = [1e-6f64, -1e-5].iter().map(|v| v.to_bits()).collect();
    run.step_taken(max_abs(&grad), 1.0f64.to_bits());
    let r = run.finish(vec![7, 8], 9, &grad);
    assert_eq!((r.x, r.loss, r.max_grad), (vec![7, 8], 9, 1e-5f64.to_bits()));
    assert!(r.converged && r.iters == 1);
    assert_eq!(r.stop_reason, LbfgsStopReason::Converged);
}

#[test]
fn a_run_ends_early_only_for_a_reason() {
    let (g, f, big) = (1e-4f64.to_bits(), 1e-9f64.to_bits(), 1.0f64.to_bits());
    let mut run = Minimizer::begin(1, 1, big, g, f, 3).unwrap();
    while run.stop_reason().is_none() {
        run.step_taken(big, big);
    }
    let r = run.finish(vec![0], 0, &vec![big]);
    assert_eq!((r.stop_reason, r.iters, r.converged), (LbfgsStopReason::MaxIter, 3, false));

    let run = Minimizer::begin(1, 1, g, g, f, 3).unwrap();
    let r = run.finish(vec![0], 0, &vec![g]);
    assert_eq!((r.stop_reason, r.iters, r.converged), (LbfgsStopReason::Converged, 0, true));
}

fn search(f: &dyn Fn(f64) -> (f64, f64)) -> (Option<f64>, usize) {
    search_within(f, LBFGS_MAXLS)
}

fn search_within(f: &dyn Fn(f64) -> (f64, f64), maxls: usize) -> (Option<f64>, usize) {
    let (phi0, slope0) = f(0.0);
    let flat = -0.9 * slope0;
    let (phi0_bits, slope0_bits) = (phi0.to_bits(), slope0.to_bits());
    let Some(mut s) = LineSearch::start(phi0_bits, slope0_bits, flat.to_bits(), maxls) else {
        return (None, 0);
    };
    let mut evals = 0;
    loop {
        let t = match s.request() {
            Request::GiveUp => return (None, evals),
            Request::At(t) => f64::from_bits(t),
            Request::Between(a, b) => 0.5 * (f64::from_bits(a) + f64::from_bits(b)),
        };
        let (phi, slope) = f(t);
        evals += 1;
        let width = match s.stage {
            Stage::Zoom { t_lo, t_hi, .. } => f64::from_bits(t_hi) - f64::from_bits(t_lo),
            _ => 0.0,
        };
        let probe = Probe {
            phi: phi.to_bits(),
            bound: (phi0 + 1e-4 * t * slope0).to_bits(),
            slope: slope.to_bits(),
            turn: (slope * width).to_bits(),
        };
        let mut out = s.observe(t.to_bits(), probe);
        if let Outcome::Narrowed(n) = out {
            let w = match n.stage {
                Stage::Zoom { t_lo, t_hi, .. } => {
                    (f64::from_bits(t_hi) - f64::from_bits(t_lo)).abs()
                }
                _ => unreachable!(),
            };
            out = n.settle(w.to_bits(), phi.to_bits());
        }
        match out {
            Outcome::Accept => return (Some(t), evals),
            Outcome::Fail => return (None, evals),
            Outcome::Go(n) => s = n,
            Outcome::Narrowed(_) => unreachable!(),
        }
    }
}

#[test]
fn a_unit_step_is_taken_where_it_fits() {
    let (t, evals) = search(&|t| ((t - 1.0) * (t - 1.0), 2.0 * (t - 1.0)));
    assert_eq!((t, evals), (Some(1.0), 1));
}

#[test]
fn the_step_doubles_until_the_slope_is_flat() {
    let (t, _) = search(&|t| ((t - 100.0) * (t - 100.0), 2.0 * (t - 100.0)));
    assert_eq!(t, Some(16.0));
}

#[test]
fn an_overshoot_is_narrowed() {
    let (t, evals) = search(&|t| ((t - 0.01) * (t - 0.01), 2.0 * (t - 0.01)));
    let t = t.unwrap();
    assert!(t > 0.0 && t < 0.02);
    assert!(evals <= LBFGS_MAXLS);
}

#[test]
fn an_unbounded_descent_ends_with_the_longest_step() {
    assert_eq!(search(&|t| (-t, -1.0)), (Some(1e10), 35));
    let (t, evals) = search(&|t| (-t * t - t, -2.0 * t - 1.0));
    assert_eq!(t, Some(1e10));
    assert_eq!(evals, 35);
}

#[test]
fn no_evaluation_is_made_beyond_the_limit() {
    assert_eq!(search_within(&|t| (-t, -1.0), 35), (Some(1e10), 35));
    assert_eq!(search_within(&|t| (-t, -1.0), 34), (None, 34));
    assert_eq!(search_within(&|t| (-t, -1.0), 0), (None, 0));
}

#[test]
fn ascending_directions_have_no_step() {
    assert_eq!(search(&|t| (t, 1.0)), (None, 0));
}

#[test]
fn nowhere_decreasing_objectives_have_no_step() {
    let (t, evals) = search(&|t| if t == 0.0 { (0.0, -1.0) } else { (1.0, 0.0) });
    assert_eq!(t, None);
    assert!(evals <= LBFGS_MAXLS);
}

#[test]
fn softmax_operands_are_checked_in_order() {
    let v = validate_softmax_geometry;
    assert_eq!(v(6, 3, 4, 2, 3, 2, 2), Ok(()));
    assert_eq!(v(5, 3, 4, 2, 3, 2, 2), Err(shape("lbfgs.x", 3, 2, 5)));
    assert_eq!(v(6, 3, 4, 2, 3, 2, 0), Err(shape("lbfgs.x", 3, 2, 6)));
    assert_eq!(v(6, 2, 4, 2, 3, 2, 2), Err(shape("lbfgs.y", 3, 1, 2)));
    assert_eq!(v(6, 3, 5, 2, 3, 2, 2), Err(shape("lbfgs.w", 2, 2, 5)));
    assert_eq!(v(6, 3, 4, 3, 3, 2, 2), Err(shape("lbfgs.b", 2, 1, 3)));
    assert!(softmax_on_host(8, false));
    assert!(!softmax_on_host(8, true));
    assert!(!softmax_on_host(4, false));
}
