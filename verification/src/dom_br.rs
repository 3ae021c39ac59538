//! A line-break component: an owning element with no children at all, the
//! empty case of the fixed-shape container.

use crate::dom_struct::DomStruct;
use vstd::prelude::*;

verus! {

/// A childless element component.
pub type DomBr = DomStruct<()>;

} // verus!
