use approx::{AbsDiffEq, RelativeEq};
use treelars::float::{Extended, Float};
use treelars::graphidx::weights::{ArrayWeights, ConstantWeights};
use treelars::line::LineDP;
use treelars::pwl::Event;
use treelars::stats::{lambda_max, lambda_max_factor, welford_mean};
use treelars::tree::TreeDP;

/// 64-bit floating point numbers as the numbers of the solver.
#[derive(Clone, Copy, Debug, PartialEq, PartialOrd)]
struct F64(f64);

impl Float for F64 {
    // The two that follow belong to contracts only: nothing calls them.
    fn view(&self) -> Extended {
        unreachable!()
    }
    fn tolerance() -> Extended {
        unreachable!()
    }
    fn eps() -> Self {
        let d = 10_000.0;
        F64(1.0 / (d * d))
    }
    fn infinity() -> Self {
        F64(f64::INFINITY)
    }
    fn from_i16(v: i16) -> Self {
        F64(f64::from(v))
    }
    fn copy(&self) -> Self {
        *self
    }
    fn plus(&self, rhs: &Self) -> Self {
        F64(self.0 + rhs.0)
    }
    fn minus(&self, rhs: &Self) -> Self {
        F64(self.0 - rhs.0)
    }
    fn times(&self, rhs: &Self) -> Self {
        F64(self.0 * rhs.0)
    }
    fn over(&self, rhs: &Self) -> Self {
        F64(self.0 / rhs.0)
    }
    fn negated(&self) -> Self {
        F64(-self.0)
    }
    fn less(&self, rhs: &Self) -> bool {
        self.0 < rhs.0
    }
}

/// 32-bit floating point numbers as the numbers of the solver.
#[derive(Clone, Copy, Debug, PartialEq, PartialOrd)]
struct F32(f32);

impl Float for F32 {
    // The two that follow belong to contracts only: nothing calls them.
    fn view(&self) -> Extended {
        unreachable!()
    }
    fn tolerance() -> Extended {
        unreachable!()
    }
    fn eps() -> Self {
        let d = 10_000.0;
        F32(1.0 / (d * d))
    }
    fn infinity() -> Self {
        F32(f32::INFINITY)
    }
    fn from_i16(v: i16) -> Self {
        F32(f32::from(v))
    }
    fn copy(&self) -> Self {
        *self
    }
    fn plus(&self, rhs: &Self) -> Self {
        F32(self.0 + rhs.0)
    }
    fn minus(&self, rhs: &Self) -> Self {
        F32(self.0 - rhs.0)
    }
    fn times(&self, rhs: &Self) -> Self {
        F32(self.0 * rhs.0)
    }
    fn over(&self, rhs: &Self) -> Self {
        F32(self.0 / rhs.0)
    }
    fn negated(&self) -> Self {
        F32(-self.0)
    }
    fn less(&self, rhs: &Self) -> bool {
        self.0 < rhs.0
    }
}

fn wrap64(v: &[f64]) -> Vec<F64> {
    v.iter().map(|&a| F64(a)).collect()
}

fn wrap32(v: &[f32]) -> Vec<F32> {
    v.iter().map(|&a| F32(a)).collect()
}

fn l1_diff64(a: &[F64], b: &[f64]) -> f64 {
    assert_eq!(a.len(), b.len());
    a.iter().zip(b.iter()).map(|(x, y)| (x.0 - y).abs()).sum()
}

fn l1_diff32(a: &[F32], b: &[f32]) -> f32 {
    assert_eq!(a.len(), b.len());
    a.iter().zip(b.iter()).map(|(x, y)| (x.0 - y).abs()).sum()
}

fn relative_eq(a: f64, b: f64) -> bool {
    a.relative_eq(&b, f64::default_epsilon(), f64::default_max_relative())
}

fn solve_line_3_f32() {
    let y = wrap32(&[1., 2., 1.]);
    let lam = ConstantWeights::new(F32(0.1));
    let mu = ConstantWeights::new(F32(1.0));
    let mut solver = LineDP::new(y.len());
    let mut x: Vec<F32> = Vec::with_capacity(y.len());
    x.resize(y.len(), F32(f32::NAN));
    solver.solve(&mut x, &y, &lam, &mu);
    assert!(l1_diff32(&x, &[0.0, 0.0, 1.0]) > 1.0);
    let diff: f32 = l1_diff32(&x, &[1.1, 1.8, 1.1]);
    assert!(
        diff <= 2e-7,
        "diff = {:e}, x = {:?}, bounds = {:?}",
        diff,
        x,
        solver.get_bounds()
    );
}

fn solve_line_3_f64() {
    let y = wrap64(&[1., 2., 1.]);
    let lam = ConstantWeights::new(F64(0.1));
    let mu = ConstantWeights::new(F64(1.0));
    let mut solver = LineDP::new(y.len());
    let mut x: Vec<F64> = Vec::with_capacity(y.len());
    x.resize(y.len(), F64(f64::NAN));
    solver.solve(&mut x, &y, &lam, &mu);
    assert!(l1_diff64(&x, &[0.0, 0.0, 1.0]) > 1.0);
    let diff: f64 = l1_diff64(&x, &[1.1, 1.8, 1.1]);
    assert!(
        diff <= 1e-8,
        "diff = {}, x = {:?}, bounds = {:?}",
        diff,
        x,
        solver.get_bounds()
    );
}

#[test]
fn line_test_line_3() {
    solve_line_3_f32();
}

#[test]
fn test_line_3_f64() {
    solve_line_3_f64();
}

#[test]
fn line_32_test_line_3() {
    solve_line_3_f32();
}

#[test]
fn line_64_test_line_3() {
    solve_line_3_f64();
}

#[test]
fn pwl_test_event_offset() {
    let e = Event::<F32> {
        x: F32(-0.15),
        slope: F32(2.0),
    };
    assert_eq!(e.offset(), F32(0.3));
}

#[test]
fn pwl_32_test_event_offset() {
    let e = Event {
        x: F32(-0.15),
        slope: F32(2.0),
    };
    assert_eq!(e.offset().0, 0.3);
}

#[test]
fn test_welford_mean() {
    let data1: Vec<F64> = wrap64(&[
        -0.2711336,
        1.20002575,
        0.69102151,
        -0.56390913,
        -1.62661382,
        -0.0613969,
        0.39876752,
        -0.99619281,
        1.12860854,
        -0.61163405,
    ]);
    assert!(relative_eq(welford_mean(&data1).0, -0.071245699));
}

#[test]
fn test_lam_max_const() {
    let l = lambda_max(&wrap64(&[0.5, 0.5, 0.5]));
    assert!(l.0.abs() < 1e-17);
}

#[test]
fn test_lam_max_0() {
    assert!(relative_eq(lambda_max(&wrap64(&[0.0, 3.0, 0.0])).0, 1.0));
}

#[test]
fn test_lam_max_1() {
    assert!(relative_eq(
        lambda_max(&wrap64(&[0.15, 0.15, 0.7, 1.0])).0,
        0.7
    ));
}

#[test]
fn test_lam_max_factor_1() {
    let y = wrap64(&[0.15, 0.15, 0.7, 1.0]);
    let lam = [1.0, 0.3, 1.0];
    let lam0 = 7.0 / 3.0;
    assert!(relative_eq(lambda_max_factor(&y, &wrap64(&lam)).0, lam0));
    let mu = ConstantWeights::new(F64(1.0));
    let lama = ArrayWeights::new(lam.iter().map(|&l| F64(l * lam0)).collect());
    let mut solver = LineDP::new(y.len());
    solver.dp_optimize(&y, &lama, &mu);
    let segs = solver.segments();
    assert_eq!(segs.len(), 1);
    let lama = ArrayWeights::new(lam.iter().map(|&l| F64(l * (lam0 - 1e-9))).collect());
    let mut solver = LineDP::new(y.len());
    solver.dp_optimize(&y, &lama, &mu);
    let segs = solver.segments();
    assert_eq!(segs.len(), 2);
}

#[test]
fn test_treedp_empty() {
    let t = TreeDP::new(vec![]);
    let mut x: Vec<F64> = vec![];
    let y: Vec<F64> = vec![];
    let lam = ConstantWeights::new(F64(1.0));
    let mu = ConstantWeights::new(F64(0.5));
    t.solve(&mut x, &y, lam, mu);
    assert!(true);
}

#[test]
fn treedp_hands_back_what_it_visits() {
    let t = TreeDP::new(vec![2, 0]);
    let mut x = wrap64(&[9.0, 9.0, 9.0]);
    let y = wrap64(&[1.0, 2.0, 3.0]);
    t.solve(&mut x, &y, ConstantWeights::new(F64(1.0)), ConstantWeights::new(F64(1.0)));
    assert_eq!(x, wrap64(&[1.0, 9.0, 3.0]));
}

#[test]
fn float_provided_methods() {
    assert_eq!(F64(-2.5).abs(), F64(2.5));
    assert_eq!(F64(2.5).abs(), F64(2.5));
    assert_eq!(F64(3.0).clip(&F64(0.0), &F64(1.0)), F64(1.0));
    assert_eq!(F64(-3.0).clip(&F64(0.0), &F64(1.0)), F64(0.0));
    assert_eq!(F64(0.5).clip(&F64(0.0), &F64(1.0)), F64(0.5));
    assert_eq!(F64(0.5).min(&F64(0.25)), F64(0.25));
    assert_eq!(F64(0.25).min(&F64(0.5)), F64(0.25));
}

#[test]
fn large_penalty_fuses_all_f64() {
    let y = wrap64(&[0.0, 3.0, 0.0]);
    let lam = ConstantWeights::new(F64(1.0));
    let mu = ConstantWeights::new(F64(1.0));
    let mut solver = LineDP::new(3);
    let mut x = wrap64(&[0.0; 3]);
    solver.solve(&mut x, &y, &lam, &mu);
    assert_eq!(x, wrap64(&[1.0, 1.0, 1.0]));
    let segs = solver.segments();
    assert_eq!(segs, vec![(0..3, F64(1.0))]);
    assert_eq!(solver.dof(), 1);
}

#[test]
fn zero_weights_are_bridged_f64() {
    let y = wrap64(&[0.0, 0.0, 0.0, 2.0]);
    let mu = ArrayWeights::new(wrap64(&[1.0, 0.0, 0.0, 1.0]));
    let lam = ArrayWeights::new(wrap64(&[1.0, 0.3, 1.0]));
    let mut solver = LineDP::new(4);
    solver.dp_optimize(&y, &lam, &mu);
    let segs = solver.segments();
    assert_eq!(segs.len(), 2);
    assert_eq!(segs[0].0, 0..2);
    assert_eq!(segs[1].0, 2..4);
    assert!((segs[0].1 .0 - 0.3).abs() <= 1e-12);
    assert!((segs[1].1 .0 - 1.7).abs() <= 1e-12);
}
