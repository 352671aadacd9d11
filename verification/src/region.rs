//! The region of the constraint system that a gadget is laid out in.
//!
//! A region is the list of elementary operations that have been asked for so far. Each
//! operation takes one row and fills one cell, which later operations name by its row.
//! The cursor of the region is the number of rows taken: it only grows, and a row that
//! was taken is never written again.

use crate::bits::bit_of;
use crate::curve::{Curve, Point};
use crate::error::Error;
use vstd::arithmetic::power2::pow2;
use vstd::prelude::*;

verus! {

/// A curve point that the region holds.
#[derive(Clone, Copy, Debug, PartialEq, Eq, Structural)]
pub struct AssignedPoint {
    pub cell: usize,
}

/// An emulated integer that the region holds.
#[derive(Clone, Copy, Debug, PartialEq, Eq, Structural)]
pub struct AssignedInteger {
    pub cell: usize,
}

/// A bit that the region holds: a constant, or one bit of a decomposed integer.
#[derive(Clone, Copy, Debug, PartialEq, Eq, Structural)]
pub struct AssignedCondition {
    pub cell: usize,
    pub position: usize,
}

/// One elementary operation, carried out by the layer that owns the constraint system.
#[derive(Clone, Copy, Debug, PartialEq, Eq, Structural)]
pub enum Gate {
    /// A point that the prover supplies.
    Point,
    /// An emulated integer that the prover supplies.
    Integer,
    /// A constant bit.
    Constant { bit: bool },
    /// The `bits` low bits of `integer`, each constrained to be a bit.
    Decompose { integer: AssignedInteger, bits: usize },
    /// `a + b`.
    Add { a: AssignedPoint, b: AssignedPoint },
    /// `2 · a`.
    Double { a: AssignedPoint },
    /// `2^n · a`.
    DoubleN { a: AssignedPoint, n: usize },
    /// `a` where `cond` is set, `b` where it is not.
    Select { cond: AssignedCondition, a: AssignedPoint, b: AssignedPoint },
    /// `2 · acc + addend`.
    Ladder { acc: AssignedPoint, addend: AssignedPoint },
}

/// The values that the prover supplies: one for each row, read where the row holds a
/// `Gate::Point` or a `Gate::Integer`.
pub struct Witness {
    pub points: spec_fn(int) -> Point,
    pub integers: spec_fn(int) -> nat,
}

impl Witness {
    /// Every point that the prover supplies lies on `curve`.
    pub open spec fn fits(self, curve: Curve) -> bool {
        forall|row: int| curve.has(#[trigger] (self.points)(row))
    }
}

/// The handle of the point in row `row`.
pub open spec fn point_at(row: nat) -> AssignedPoint {
    AssignedPoint { cell: row as usize }
}

/// The cell of `gate` holds a point.
pub open spec fn yields_point(gate: Gate) -> bool {
    match gate {
        Gate::Point => true,
        Gate::Add { .. } => true,
        Gate::Double { .. } => true,
        Gate::DoubleN { .. } => true,
        Gate::Select { .. } => true,
        Gate::Ladder { .. } => true,
        _ => false,
    }
}

/// `p` names a point among `gates`.
pub open spec fn names_point(gates: Seq<Gate>, p: AssignedPoint) -> bool {
    p.cell < gates.len() && yields_point(gates[p.cell as int])
}

/// `integer` names an integer among `gates`.
pub open spec fn names_integer(gates: Seq<Gate>, integer: AssignedInteger) -> bool {
    integer.cell < gates.len() && gates[integer.cell as int] is Integer
}

/// `cond` names a bit among `gates`.
pub open spec fn names_condition(gates: Seq<Gate>, cond: AssignedCondition) -> bool {
    cond.cell < gates.len() && match gates[cond.cell as int] {
        Gate::Constant { .. } => cond.position == 0,
        Gate::Decompose { bits, .. } => cond.position < bits,
        _ => false,
    }
}

/// The operands of `gate` are cells of `before`, each of the kind that `gate` needs.
pub open spec fn operands_known(before: Seq<Gate>, gate: Gate) -> bool {
    match gate {
        Gate::Point => true,
        Gate::Integer => true,
        Gate::Constant { .. } => true,
        Gate::Decompose { integer, .. } => names_integer(before, integer),
        Gate::Add { a, b } => names_point(before, a) && names_point(before, b),
        Gate::Double { a } => names_point(before, a),
        Gate::DoubleN { a, .. } => names_point(before, a),
        Gate::Select { cond, a, b } => names_condition(before, cond) && names_point(before, a)
            && names_point(before, b),
        Gate::Ladder { acc, addend } => names_point(before, acc) && names_point(before, addend),
    }
}

/// Every operation of `gates` works on cells of earlier rows.
pub open spec fn well_formed(gates: Seq<Gate>) -> bool {
    forall|row: int| 0 <= row < gates.len() ==> operands_known(gates.take(row), #[trigger] gates[row])
}

/// `later` holds `earlier` and then, maybe, more.
pub open spec fn extends(later: Seq<Gate>, earlier: Seq<Gate>) -> bool {
    earlier.len() <= later.len() && later.take(earlier.len() as int) == earlier
}

/// The number in the integer cell `integer` under `witness`.
pub open spec fn integer_value(witness: Witness, integer: AssignedInteger) -> nat {
    (witness.integers)(integer.cell as int)
}

/// The bit in `cond` under `witness`.
pub open spec fn condition_value(gates: Seq<Gate>, witness: Witness, cond: AssignedCondition) -> bool {
    if cond.cell < gates.len() {
        match gates[cond.cell as int] {
            Gate::Constant { bit } => bit,
            Gate::Decompose { integer, .. } => bit_of(
                integer_value(witness, integer),
                cond.position as nat,
            ),
            _ => false,
        }
    } else {
        false
    }
}

/// The bits in `conds` under `witness`, in their order.
pub open spec fn condition_values(
    gates: Seq<Gate>,
    witness: Witness,
    conds: Seq<AssignedCondition>,
) -> Seq<bool> {
    Seq::new(conds.len(), |i: int| condition_value(gates, witness, conds[i]))
}

/// The point in the cell of row `row` under `witness`, on `curve`. An operand that is
/// not of an earlier row counts as the point at infinity, and so does a cell that holds
/// no point.
pub open spec fn point_value(gates: Seq<Gate>, curve: Curve, witness: Witness, row: int) -> Point
    decreases row,
{
    if 0 <= row < gates.len() {
        match gates[row] {
            Gate::Point => (witness.points)(row),
            Gate::Add { a, b } => curve.plus(
                (if a.cell < row {
                    point_value(gates, curve, witness, a.cell as int)
                } else {
                    Point::Infinity
                }),
                (if b.cell < row {
                    point_value(gates, curve, witness, b.cell as int)
                } else {
                    Point::Infinity
                }),
            ),
            Gate::Double { a } => curve.twice((if a.cell < row {
                    point_value(gates, curve, witness, a.cell as int)
                } else {
                    Point::Infinity
                })),
            Gate::DoubleN { a, n } => curve.scale(
                pow2(n as nat),
                (if a.cell < row {
                    point_value(gates, curve, witness, a.cell as int)
                } else {
                    Point::Infinity
                }),
            ),
            Gate::Select { cond, a, b } => if condition_value(gates.take(row), witness, cond) {
                (if a.cell < row {
                    point_value(gates, curve, witness, a.cell as int)
                } else {
                    Point::Infinity
                })
            } else {
                (if b.cell < row {
                    point_value(gates, curve, witness, b.cell as int)
                } else {
                    Point::Infinity
                })
            },
            Gate::Ladder { acc, addend } => curve.plus(
                curve.twice((if acc.cell < row {
                    point_value(gates, curve, witness, acc.cell as int)
                } else {
                    Point::Infinity
                })),
                (if addend.cell < row {
                    point_value(gates, curve, witness, addend.cell as int)
                } else {
                    Point::Infinity
                }),
            ),
            _ => Point::Infinity,
        }
    } else {
        Point::Infinity
    }
}

/// The point in `p` under `witness`, on `curve`.
pub open spec fn point_of(gates: Seq<Gate>, curve: Curve, witness: Witness, p: AssignedPoint) -> Point {
    point_value(gates, curve, witness, p.cell as int)
}

/// What a region held keeps its value when more operations are recorded.
pub proof fn lemma_points_persist(earlier: Seq<Gate>, later: Seq<Gate>, curve: Curve, witness: Witness, row: int)
    requires
        extends(later, earlier),
        row < earlier.len(),
    ensures
        point_value(later, curve, witness, row) == point_value(earlier, curve, witness, row),
    decreases row,
{
    if 0 <= row {
        assert(later.take(earlier.len() as int)[row] == later[row]);
        assert(later.take(row) =~= earlier.take(row)) by {
            assert forall|i: int| 0 <= i < row implies later.take(row)[i] == earlier.take(row)[i] by {
                assert(later.take(earlier.len() as int)[i] == later[i]);
            }
        }
        match earlier[row] {
            Gate::Add { a, b } => {
                if a.cell < row {
                    lemma_points_persist(earlier, later, curve, witness, a.cell as int);
                }
                if b.cell < row {
                    lemma_points_persist(earlier, later, curve, witness, b.cell as int);
                }
            },
            Gate::Double { a } => {
                if a.cell < row {
                    lemma_points_persist(earlier, later, curve, witness, a.cell as int);
                }
            },
            Gate::DoubleN { a, n } => {
                if a.cell < row {
                    lemma_points_persist(earlier, later, curve, witness, a.cell as int);
                }
            },
            Gate::Select { cond, a, b } => {
                if a.cell < row {
                    lemma_points_persist(earlier, later, curve, witness, a.cell as int);
                }
                if b.cell < row {
                    lemma_points_persist(earlier, later, curve, witness, b.cell as int);
                }
            },
            Gate::Ladder { acc, addend } => {
                if acc.cell < row {
                    lemma_points_persist(earlier, later, curve, witness, acc.cell as int);
                }
                if addend.cell < row {
                    lemma_points_persist(earlier, later, curve, witness, addend.cell as int);
                }
            },
            _ => {},
        }
    }
}

/// What a region held keeps its value when more operations are recorded: every point and
/// every bit at once.
pub proof fn lemma_persist(earlier: Seq<Gate>, later: Seq<Gate>)
    requires
        extends(later, earlier),
    ensures
        forall|curve: Curve, witness: Witness, row: int|
            row < earlier.len() ==> #[trigger] point_value(later, curve, witness, row) == point_value(
                earlier,
                curve,
                witness,
                row,
            ),
        forall|witness: Witness, cond: AssignedCondition|
            cond.cell < earlier.len() ==> #[trigger] condition_value(later, witness, cond)
                == condition_value(earlier, witness, cond),
        forall|p: AssignedPoint| names_point(earlier, p) ==> #[trigger] names_point(later, p),
        forall|cond: AssignedCondition|
            names_condition(earlier, cond) ==> #[trigger] names_condition(later, cond),
        forall|integer: AssignedInteger|
            names_integer(earlier, integer) ==> #[trigger] names_integer(later, integer),
{
    assert forall|curve: Curve, witness: Witness, row: int| row < earlier.len() implies #[trigger] point_value(
        later,
        curve,
        witness,
        row,
    ) == point_value(earlier, curve, witness, row) by {
        lemma_points_persist(earlier, later, curve, witness, row);
    }
    assert forall|i: int| 0 <= i < earlier.len() implies later[i] == earlier[i] by {
        assert(later.take(earlier.len() as int)[i] == later[i]);
    }
}

/// A point that is known stays known when more operations are recorded.
pub proof fn lemma_point_known_later(earlier: Seq<Gate>, later: Seq<Gate>, p: AssignedPoint)
    requires
        extends(later, earlier),
        names_point(earlier, p),
    ensures
        names_point(later, p),
{
    assert(later.take(earlier.len() as int)[p.cell as int] == later[p.cell as int]);
}

/// A bit that is known stays known when more operations are recorded.
pub proof fn lemma_condition_known_later(earlier: Seq<Gate>, later: Seq<Gate>, cond: AssignedCondition)
    requires
        extends(later, earlier),
        names_condition(earlier, cond),
    ensures
        names_condition(later, cond),
{
    assert(later.take(earlier.len() as int)[cond.cell as int] == later[cond.cell as int]);
}

/// `extends` is transitive, and every list extends itself.
pub proof fn lemma_extends_chain(a: Seq<Gate>, b: Seq<Gate>, c: Seq<Gate>)
    requires
        extends(b, a),
        extends(c, b),
    ensures
        extends(c, a),
        extends(a, a),
{
    assert(a.take(a.len() as int) =~= a);
    assert(c.take(a.len() as int) =~= a) by {
        assert forall|i: int| 0 <= i < a.len() implies c.take(a.len() as int)[i] == a[i] by {
            assert(b.take(a.len() as int)[i] == b[i]);
            assert(c.take(b.len() as int)[i] == c[i]);
        }
    }
}

/// Every list extends itself.
pub proof fn lemma_extends_self(gates: Seq<Gate>)
    ensures
        extends(gates, gates),
{
    assert(gates.take(gates.len() as int) =~= gates);
}

/// A list with one more operation extends the list.
pub proof fn lemma_extends_push(gates: Seq<Gate>, gate: Gate)
    ensures
        extends(gates.push(gate), gates),
        extends(gates, gates),
{
    assert(gates.push(gate).take(gates.len() as int) =~= gates);
    assert(gates.take(gates.len() as int) =~= gates);
}

/// The point that the operation of row `row` reads from `p`.
pub open spec fn operand(gates: Seq<Gate>, curve: Curve, witness: Witness, row: int, p: AssignedPoint) -> Point {
    if p.cell < row {
        point_value(gates, curve, witness, p.cell as int)
    } else {
        Point::Infinity
    }
}

/// Every cell holds a point of the curve.
pub proof fn lemma_point_on_curve(gates: Seq<Gate>, curve: Curve, witness: Witness, row: int)
    requires
        curve.is_group(),
        witness.fits(curve),
    ensures
        curve.has(point_value(gates, curve, witness, row)),
    decreases row,
{
    curve.lemma_has_infinity();
    if 0 <= row < gates.len() {
        match gates[row] {
            Gate::Add { a, b } => {
                if a.cell < row {
                    lemma_point_on_curve(gates, curve, witness, a.cell as int);
                }
                if b.cell < row {
                    lemma_point_on_curve(gates, curve, witness, b.cell as int);
                }
                curve.lemma_plus_closed(
                    operand(gates, curve, witness, row, a),
                    operand(gates, curve, witness, row, b),
                );
            },
            Gate::Double { a } => {
                if a.cell < row {
                    lemma_point_on_curve(gates, curve, witness, a.cell as int);
                }
                let v = operand(gates, curve, witness, row, a);
                curve.lemma_plus_closed(v, v);
            },
            Gate::DoubleN { a, n } => {
                if a.cell < row {
                    lemma_point_on_curve(gates, curve, witness, a.cell as int);
                }
                curve.lemma_scale_closed(pow2(n as nat), operand(gates, curve, witness, row, a));
            },
            Gate::Select { cond, a, b } => {
                if a.cell < row {
                    lemma_point_on_curve(gates, curve, witness, a.cell as int);
                }
                if b.cell < row {
                    lemma_point_on_curve(gates, curve, witness, b.cell as int);
                }
            },
            Gate::Ladder { acc, addend } => {
                if acc.cell < row {
                    lemma_point_on_curve(gates, curve, witness, acc.cell as int);
                }
                if addend.cell < row {
                    lemma_point_on_curve(gates, curve, witness, addend.cell as int);
                }
                let v = operand(gates, curve, witness, row, acc);
                curve.lemma_plus_closed(v, v);
                curve.lemma_plus_closed(curve.twice(v), operand(gates, curve, witness, row, addend));
            },
            _ => {},
        }
    }
}

/// The operations recorded so far, one per row.
pub struct Region {
    gates: Vec<Gate>,
}

impl View for Region {
    type V = Seq<Gate>;

    closed spec fn view(&self) -> Seq<Gate> {
        self.gates@
    }
}

impl Region {
    /// Every recorded operation works on cells of earlier rows, each of the kind it
    /// needs. A new region is so, and every operation keeps a region so.
    pub open spec fn wf(&self) -> bool {
        well_formed(self@)
    }

    /// `p` names a point of this region.
    pub open spec fn has_point(&self, p: AssignedPoint) -> bool {
        names_point(self@, p)
    }

    /// `integer` names an integer of this region.
    pub open spec fn has_integer(&self, integer: AssignedInteger) -> bool {
        names_integer(self@, integer)
    }

    /// `cond` names a bit of this region.
    pub open spec fn has_condition(&self, cond: AssignedCondition) -> bool {
        names_condition(self@, cond)
    }

    /// An empty region, with its cursor on row 0.
    pub fn new() -> (region: Region)
        ensures
            region@ == Seq::<Gate>::empty(),
            region.wf(),
    {
        Region { gates: Vec::new() }
    }

    /// The cursor fits a machine word.
    pub proof fn lemma_offset_fits(&self)
        ensures
            self@.len() <= usize::MAX,
    {
        assert(self.gates.len() == self.gates@.len());
    }

    /// The cursor: the number of rows taken so far.
    pub fn offset(&self) -> (rows: usize)
        ensures
            rows == self@.len(),
    {
        self.gates.len()
    }

    /// The operation of row `row`, if the row was taken.
    pub fn gate(&self, row: usize) -> (gate: Option<Gate>)
        ensures
            gate == if row < self@.len() {
                Some(self@[row as int])
            } else {
                None
            },
    {
        if row < self.gates.len() {
            Some(self.gates[row])
        } else {
            None
        }
    }

    /// Whether `p` names a point of this region.
    pub fn contains_point(&self, p: &AssignedPoint) -> (known: bool)
        ensures
            known == self.has_point(*p),
    {
        if p.cell < self.gates.len() {
            match self.gates[p.cell] {
                Gate::Point => true,
                Gate::Add { .. } => true,
                Gate::Double { .. } => true,
                Gate::DoubleN { .. } => true,
                Gate::Select { .. } => true,
                Gate::Ladder { .. } => true,
                _ => false,
            }
        } else {
            false
        }
    }

    /// Whether `integer` names an integer of this region.
    pub fn contains_integer(&self, integer: &AssignedInteger) -> (known: bool)
        ensures
            known == self.has_integer(*integer),
    {
        if integer.cell < self.gates.len() {
            match self.gates[integer.cell] {
                Gate::Integer => true,
                _ => false,
            }
        } else {
            false
        }
    }

    /// Whether `cond` names a bit of this region.
    pub fn contains_condition(&self, cond: &AssignedCondition) -> (known: bool)
        ensures
            known == self.has_condition(*cond),
    {
        if cond.cell < self.gates.len() {
            match self.gates[cond.cell] {
                Gate::Constant { .. } => cond.position == 0,
                Gate::Decompose { bits, .. } => cond.position < bits,
                _ => false,
            }
        } else {
            false
        }
    }

    /// Takes the next row for `gate`.
    fn record(&mut self, gate: Gate) -> (row: usize)
        requires
            operands_known(old(self)@, gate),
        ensures
            final(self)@ == old(self)@.push(gate),
            row == old(self)@.len(),
            extends(final(self)@, old(self)@),
            old(self).wf() ==> final(self).wf(),
    {
        proof {
            lemma_extends_push(self.gates@, gate);
        }
        let row = self.gates.len();
        let ghost before = self.gates@;
        self.gates.push(gate);
        proof {
            let after = self.gates@;
            if well_formed(before) {
                assert forall|r: int| 0 <= r < after.len() implies operands_known(
                    after.take(r),
                    #[trigger] after[r],
                ) by {
                    if r < before.len() {
                        assert(after.take(r) =~= before.take(r));
                        assert(after[r] == before[r]);
                    } else {
                        assert(after.take(r) =~= before);
                    }
                }
            }
        }
        row
    }

    /// A point that the prover supplies.
    pub fn assign_point(&mut self) -> (p: AssignedPoint)
        ensures
            final(self)@ == old(self)@.push(Gate::Point),
            p.cell == old(self)@.len(),
            old(self).wf() ==> final(self).wf(),
    {
        let cell = self.record(Gate::Point);
        AssignedPoint { cell }
    }

    /// An emulated integer that the prover supplies.
    pub fn assign_integer(&mut self) -> (integer: AssignedInteger)
        ensures
            final(self)@ == old(self)@.push(Gate::Integer),
            integer.cell == old(self)@.len(),
            old(self).wf() ==> final(self).wf(),
    {
        let cell = self.record(Gate::Integer);
        AssignedInteger { cell }
    }

    /// The constant `bit`.
    pub fn assign_constant(&mut self, bit: bool) -> (cond: AssignedCondition)
        ensures
            final(self)@ == old(self)@.push(Gate::Constant { bit }),
            cond.cell == old(self)@.len(),
            cond.position == 0,
            old(self).wf() ==> final(self).wf(),
    {
        let cell = self.record(Gate::Constant { bit });
        AssignedCondition { cell, position: 0 }
    }

    /// The `bits` low bits of `integer`, least significant first.
    pub fn decompose(&mut self, integer: &AssignedInteger, bits: usize) -> (result: Result<
        Vec<AssignedCondition>,
        Error,
    >)
        ensures
            match result {
                Ok(conds) => {
                    &&& old(self).has_integer(*integer)
                    &&& final(self)@ == old(self)@.push(Gate::Decompose { integer: *integer, bits })
                    &&& conds@ == Seq::new(
                        bits as nat,
                        |j: int|
                            AssignedCondition { cell: old(self)@.len() as usize, position: j as usize },
                    )
                },
                Err(e) => {
                    &&& !old(self).has_integer(*integer)
                    &&& e == Error::UnknownCell
                    &&& final(self)@ == old(self)@
                },
            },
            old(self).wf() ==> final(self).wf(),
    {
        if !self.contains_integer(integer) {
            return Err(Error::UnknownCell);
        }
        let cell = self.record(Gate::Decompose { integer: *integer, bits });
        let mut conds: Vec<AssignedCondition> = Vec::new();
        let mut j: usize = 0;
        while j < bits
            invariant
                j <= bits,
                conds@ == Seq::new(
                    j as nat,
                    |k: int| AssignedCondition { cell, position: k as usize },
                ),
            decreases bits - j,
        {
            conds.push(AssignedCondition { cell, position: j });
            j = j + 1;
        }
        Ok(conds)
    }

    /// `a + b`.
    pub fn add(&mut self, a: &AssignedPoint, b: &AssignedPoint) -> (result: Result<
        AssignedPoint,
        Error,
    >)
        ensures
            match result {
                Ok(p) => {
                    &&& old(self).has_point(*a) && old(self).has_point(*b)
                    &&& final(self)@ == old(self)@.push(Gate::Add { a: *a, b: *b })
                    &&& p.cell == old(self)@.len()
                },
                Err(e) => {
                    &&& !(old(self).has_point(*a) && old(self).has_point(*b))
                    &&& e == Error::UnknownCell
                    &&& final(self)@ == old(self)@
                },
            },
            old(self).wf() ==> final(self).wf(),
    {
        if !self.contains_point(a) || !self.contains_point(b) {
            return Err(Error::UnknownCell);
        }
        let cell = self.record(Gate::Add { a: *a, b: *b });
        Ok(AssignedPoint { cell })
    }

    /// `2 · a`.
    pub fn double(&mut self, a: &AssignedPoint) -> (result: Result<AssignedPoint, Error>)
        ensures
            match result {
                Ok(p) => {
                    &&& old(self).has_point(*a)
                    &&& final(self)@ == old(self)@.push(Gate::Double { a: *a })
                    &&& p.cell == old(self)@.len()
                },
                Err(e) => {
                    &&& !old(self).has_point(*a)
                    &&& e == Error::UnknownCell
                    &&& final(self)@ == old(self)@
                },
            },
            old(self).wf() ==> final(self).wf(),
    {
        if !self.contains_point(a) {
            return Err(Error::UnknownCell);
        }
        let cell = self.record(Gate::Double { a: *a });
        Ok(AssignedPoint { cell })
    }

    /// `2^n · a`.
    pub fn double_n(&mut self, a: &AssignedPoint, n: usize) -> (result: Result<
        AssignedPoint,
        Error,
    >)
        ensures
            match result {
                Ok(p) => {
                    &&& old(self).has_point(*a)
                    &&& final(self)@ == old(self)@.push(Gate::DoubleN { a: *a, n })
                    &&& p.cell == old(self)@.len()
                },
                Err(e) => {
                    &&& !old(self).has_point(*a)
                    &&& e == Error::UnknownCell
                    &&& final(self)@ == old(self)@
                },
            },
            old(self).wf() ==> final(self).wf(),
    {
        if !self.contains_point(a) {
            return Err(Error::UnknownCell);
        }
        let cell = self.record(Gate::DoubleN { a: *a, n });
        Ok(AssignedPoint { cell })
    }

    /// `a` where `cond` is set, `b` where it is not.
    pub fn select(&mut self, cond: &AssignedCondition, a: &AssignedPoint, b: &AssignedPoint) -> (result:
        Result<AssignedPoint, Error>)
        ensures
            match result {
                Ok(p) => {
                    &&& old(self).has_condition(*cond) && old(self).has_point(*a) && old(
                        self,
                    ).has_point(*b)
                    &&& final(self)@ == old(self)@.push(Gate::Select { cond: *cond, a: *a, b: *b })
                    &&& p.cell == old(self)@.len()
                },
                Err(e) => {
                    &&& !(old(self).has_condition(*cond) && old(self).has_point(*a) && old(
                        self,
                    ).has_point(*b))
                    &&& e == Error::UnknownCell
                    &&& final(self)@ == old(self)@
                },
            },
            old(self).wf() ==> final(self).wf(),
    {
        if !self.contains_condition(cond) || !self.contains_point(a) || !self.contains_point(b) {
            return Err(Error::UnknownCell);
        }
        let cell = self.record(Gate::Select { cond: *cond, a: *a, b: *b });
        Ok(AssignedPoint { cell })
    }

    /// `2 · acc + addend`.
    pub fn ladder(&mut self, acc: &AssignedPoint, addend: &AssignedPoint) -> (result: Result<
        AssignedPoint,
        Error,
    >)
        ensures
            match result {
                Ok(p) => {
                    &&& old(self).has_point(*acc) && old(self).has_point(*addend)
                    &&& final(self)@ == old(self)@.push(Gate::Ladder { acc: *acc, addend: *addend })
                    &&& p.cell == old(self)@.len()
                },
                Err(e) => {
                    &&& !(old(self).has_point(*acc) && old(self).has_point(*addend))
                    &&& e == Error::UnknownCell
                    &&& final(self)@ == old(self)@
                },
            },
            old(self).wf() ==> final(self).wf(),
    {
        if !self.contains_point(acc) || !self.contains_point(addend) {
            return Err(Error::UnknownCell);
        }
        let cell = self.record(Gate::Ladder { acc: *acc, addend: *addend });
        Ok(AssignedPoint { cell })
    }
}

} // verus!
