//! Binary boolean operators as truth tables.
use vstd::prelude::*;

verus! {

/// A binary boolean operator, given by its value on each of the four pairs
/// of arguments: `ft` is the value on `(false, true)`.
#[derive(Clone, Copy, Debug, PartialEq, Eq, Structural)]
pub struct BooleanOperator {
    pub ff: bool,
    pub ft: bool,
    pub tf: bool,
    pub tt: bool,
}

impl BooleanOperator {
    /// The value of the operator on `(a, b)`.
    pub open spec fn eval(self, a: bool, b: bool) -> bool {
        if a {
            if b {
                self.tt
            } else {
                self.tf
            }
        } else {
            if b {
                self.ft
            } else {
                self.ff
            }
        }
    }

    /// Whether `unit` absorbs: the operator yields `unit` as soon as one of
    /// its arguments is `unit`.
    pub open spec fn absorbs(self, unit: bool) -> bool {
        forall|y: bool| self.eval(unit, y) == unit && self.eval(y, unit) == unit
    }

    /// The operator with the given truth table.
    pub fn new(ff: bool, ft: bool, tf: bool, tt: bool) -> (r: Self)
        ensures
            r == (BooleanOperator { ff, ft, tf, tt }),
    {
        BooleanOperator { ff, ft, tf, tt }
    }

    /// Conjunction.
    pub fn and() -> (r: Self)
        ensures
            forall|a: bool, b: bool| r.eval(a, b) == (a && b),
    {
        BooleanOperator { ff: false, ft: false, tf: false, tt: true }
    }

    /// Disjunction.
    pub fn or() -> (r: Self)
        ensures
            forall|a: bool, b: bool| r.eval(a, b) == (a || b),
    {
        BooleanOperator { ff: false, ft: true, tf: true, tt: true }
    }

    /// Exclusive disjunction.
    pub fn xor() -> (r: Self)
        ensures
            forall|a: bool, b: bool| r.eval(a, b) == (a != b),
    {
        BooleanOperator { ff: false, ft: true, tf: true, tt: false }
    }

    /// The value of the operator on `(a, b)`.
    pub fn call(&self, a: bool, b: bool) -> (r: bool)
        ensures
            r == self.eval(a, b),
    {
        if a {
            if b {
                self.tt
            } else {
                self.tf
            }
        } else {
            if b {
                self.ft
            } else {
                self.ff
            }
        }
    }

    /// Whether `unit` absorbs.
    pub fn is_absorbing(&self, unit: bool) -> (r: bool)
        ensures
            r == self.absorbs(unit),
    {
        let r = self.call(unit, false) == unit && self.call(unit, true) == unit && self.call(
            false,
            unit,
        ) == unit && self.call(true, unit) == unit;
        proof {
            if r {
                assert forall|y: bool| self.eval(unit, y) == unit && self.eval(y, unit)
                    == unit by {}
            } else {
                assert(!(self.eval(unit, false) == unit && self.eval(false, unit) == unit)
                    || !(self.eval(unit, true) == unit && self.eval(true, unit) == unit));
            }
        }
        r
    }
}

} // verus!
