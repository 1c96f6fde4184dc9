//! Axis scaling for charts: nice tick steps, domains, normalized positions,
//! tick labels and shares, all computed exactly over integers and decimals.
use vstd::prelude::*;

pub mod label;
pub mod nice;
pub mod series;

verus! {

} // verus!
