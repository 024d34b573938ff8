//! The small functions from the literature as unreduced diagrams.
use vstd::prelude::*;
use crate::dd::DecisionDiagram;
use crate::ddt::DDT;
use crate::node::example::{full_tree, independent, majority_tree, x1x3_tree, x2x3_tree};

verus! {

/// The independent sets of the cycle of six vertices, as the complete tree
/// over the variables 1 to 6.
pub fn independent_set() -> (r: DDT)
    ensures
        r@ == full_tree(|s: Set<nat>| independent(s), 1, 6, Set::empty()),
        r@.ordered(),
        r@.count_paths() == 18,
        r.graph().node_count() == 127,
{
    DDT::new_from(crate::node::example::independent_set())
}

/// The tree of "at least two of the variables 1, 2, 3".
pub fn majority() -> (r: DDT)
    ensures
        r@ == majority_tree(),
        r@.ordered(),
        r@.count_paths() == 3,
        r.graph().node_count() == 11,
{
    DDT::new_from(crate::node::example::majority())
}

/// The tree of "not both of the variables 1 and 3".
pub fn x1x3() -> (r: DDT)
    ensures
        r@ == x1x3_tree(),
        r@.ordered(),
        r@.count_paths() == 2,
        r.graph().node_count() == 5,
{
    DDT::new_from(crate::node::example::x1x3())
}

/// The tree of "both of the variables 2 and 3".
pub fn x2x3() -> (r: DDT)
    ensures
        r@ == x2x3_tree(),
        r@.ordered(),
        r@.count_paths() == 1,
        r.graph().node_count() == 5,
{
    DDT::new_from(crate::node::example::x2x3())
}

} // verus!
