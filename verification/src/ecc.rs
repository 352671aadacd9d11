//! What the curve gadgets share: selectors, windows, tables and auxiliary points.

use crate::region::{AssignedCondition, AssignedPoint};
use vstd::prelude::*;

pub mod general_ecc;

verus! {

/// The bits of one window, most significant first.
pub struct Selector(pub Vec<AssignedCondition>);

/// The windows of one scalar, most significant first.
pub struct Windowed(pub Vec<Selector>);

/// The points among which a selector picks one: entry `i` is the root of the table plus
/// `i` times the point that the table was built for.
pub struct Table(pub Vec<AssignedPoint>);

/// The pair of points that blinds a multiplication: `to_add` roots the tables, and
/// `to_sub` takes away at the end what the tables brought in.
#[derive(Clone, Copy, Debug, PartialEq, Eq, Structural)]
pub struct MulAux {
    pub to_add: AssignedPoint,
    pub to_sub: AssignedPoint,
}

impl View for Selector {
    type V = Seq<AssignedCondition>;

    open spec fn view(&self) -> Seq<AssignedCondition> {
        self.0@
    }
}

impl View for Table {
    type V = Seq<AssignedPoint>;

    open spec fn view(&self) -> Seq<AssignedPoint> {
        self.0@
    }
}

impl View for Windowed {
    type V = Seq<Seq<AssignedCondition>>;

    open spec fn view(&self) -> Seq<Seq<AssignedCondition>> {
        Seq::new(self.0@.len(), |i: int| self.0@[i]@)
    }
}

} // verus!
