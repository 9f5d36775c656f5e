//! Squared-error loss.
use vstd::prelude::*;

verus! {

/// Squared-error loss, `(target - prediction)^2`. Its value, residuals, gradient
/// and initial prediction are floating-point computations and are not part of
/// this library.
#[derive(Debug, Clone, Copy, Default)]
pub struct L2Loss;

} // verus!
