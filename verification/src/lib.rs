//! Exact solver for the weighted fused lasso on a line: the values `x`
//! that make `sum mu[i] / 2 * (x[i] - y[i])^2 + sum lam[i] * |x[i] - x[i + 1]|`
//! as small as it can be, found in one pass forward and one backward.
//!
//! - [`float`]: the numbers to compute with, and [`exact`], fractions that
//!   meet what is asked of them.
//! - [`pwl`]: breakpoints of piecewise linear functions and the clip.
//! - [`line`]: the solver, its bounds, its solution and its segments.
//! - [`message`] and [`optimal`]: why the solution is a minimizer.
//! - [`stats`]: the penalty from which on everything is fused.
//! - [`instance`]: problem instances as they are kept in files.
//! - [`graphidx`]: trees by their parents, and weights by index.
//! - [`tree`]: the solver for trees, as far as it goes.
pub mod exact;
pub mod float;
pub mod generics;
pub mod graphidx;
pub mod instance;
pub mod line;
pub mod message;
pub mod optimal;
pub mod pwl;
pub mod stats;
pub mod tree;
