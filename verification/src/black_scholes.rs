//! The closed-form Black–Scholes–Merton side of the pricer. Its prices and
//! Greeks are floating-point formulas; what is decided on discrete values is
//! whether an analytic price exists at all.

use vstd::prelude::*;

use crate::Exercise;

verus! {

/// Analytic pricing is only meaningful for European options: the result is
/// `true` exactly for [`Exercise::European`].
pub fn is_analytic(exercise: Exercise) -> (analytic: bool)
    ensures
        analytic <==> exercise == Exercise::European,
{
    match exercise {
        Exercise::European => true,
        Exercise::American => false,
    }
}

} // verus!
