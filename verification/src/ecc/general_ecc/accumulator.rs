//! What the accumulator of a multiplication holds while the windows are swept.
//!
//! The tables are rooted at an auxiliary point, so every value that is added brings a
//! multiple of that point with it. The accumulator is therefore described as a sum of
//! multiples of the points that are multiplied and of the auxiliary point, and a sweep
//! is followed by following the coefficients.

use crate::bits::{be_value, lemma_be_value_bound, repunit};
use crate::combination::{added, scaled, single};
use crate::curve::{Curve, Point};
use crate::ecc::{Table, Windowed};
use crate::region::{
    condition_values, extends, lemma_extends_push, lemma_persist, lemma_point_on_curve,
    names_condition, names_point, point_of, AssignedCondition, AssignedInteger, AssignedPoint,
    Gate, Witness,
};
use vstd::arithmetic::power2::{lemma_pow2_pos, lemma_pow2_unfold, pow2};
use vstd::prelude::*;

verus! {

/// Every handle of `conds` names a bit among `gates`.
pub open spec fn conditions_known(gates: Seq<Gate>, conds: Seq<AssignedCondition>) -> bool {
    forall|i: int| 0 <= i < conds.len() ==> names_condition(gates, #[trigger] conds[i])
}

/// Every handle of `points` names a point among `gates`.
pub open spec fn points_known(gates: Seq<Gate>, points: Seq<AssignedPoint>) -> bool {
    forall|i: int| 0 <= i < points.len() ==> names_point(gates, #[trigger] points[i])
}

/// The number that the first `count` windows spell, each of `window` bits, the first
/// window being the most significant one.
pub open spec fn prefix_value(
    gates: Seq<Gate>,
    witness: Witness,
    windows: Seq<Seq<AssignedCondition>>,
    window: nat,
    count: nat,
) -> nat
    decreases count,
{
    if count == 0 {
        0
    } else {
        prefix_value(gates, witness, windows, window, (count - 1) as nat) * pow2(window)
            + be_value(condition_values(gates, witness, windows[count - 1]))
    }
}

/// How often the auxiliary point is counted after `count` windows of a batch of `pairs`
/// tables, the table of pair `t` being rooted at `2^t` times the auxiliary point.
pub open spec fn blinding(window: nat, pairs: nat, count: nat) -> nat {
    repunit(window, count) * ((pow2(pairs) - 1) as nat)
}

/// `table` holds, at each index `v`, `2^shift` times the auxiliary point plus `v` times
/// `point`, and all of its entries are points among `gates`.
#[verifier::opaque]
pub open spec fn table_ready(
    gates: Seq<Gate>,
    table: Seq<AssignedPoint>,
    point: AssignedPoint,
    to_add: AssignedPoint,
    shift: nat,
    window: nat,
) -> bool {
    &&& table.len() == pow2(window)
    &&& points_known(gates, table)
    &&& forall|curve: Curve, witness: Witness, v: int|
        curve.is_group() && witness.fits(curve) && 0 <= v < table.len() ==> #[trigger] point_of(
            gates,
            curve,
            witness,
            table[v],
        ) == curve.plus(
            curve.scale(pow2(shift), point_of(gates, curve, witness, to_add)),
            curve.scale(v as nat, point_of(gates, curve, witness, point)),
        )
}

/// `root` holds `2^shift` times the auxiliary point.
#[verifier::opaque]
pub open spec fn root_ready(gates: Seq<Gate>, root: AssignedPoint, to_add: AssignedPoint, shift: nat) -> bool {
    &&& names_point(gates, root)
    &&& names_point(gates, to_add)
    &&& forall|curve: Curve, witness: Witness|
        curve.is_group() && witness.fits(curve) ==> #[trigger] point_of(
            gates,
            curve,
            witness,
            root,
        ) == curve.scale(pow2(shift), point_of(gates, curve, witness, to_add))
}

/// A root and the auxiliary point are points among the operations.
pub proof fn lemma_root_known(gates: Seq<Gate>, root: AssignedPoint, to_add: AssignedPoint, shift: nat)
    requires
        root_ready(gates, root, to_add, shift),
    ensures
        names_point(gates, root),
        names_point(gates, to_add),
{
    reveal(root_ready);
}

/// The auxiliary point is the root of the first table.
pub proof fn lemma_root_first(gates: Seq<Gate>, to_add: AssignedPoint)
    requires
        names_point(gates, to_add),
    ensures
        root_ready(gates, to_add, to_add, 0),
{
    reveal(root_ready);
    vstd::arithmetic::power2::lemma2_to64();
    assert forall|curve: Curve, witness: Witness|
        curve.is_group() && witness.fits(curve) implies #[trigger] point_of(
        gates,
        curve,
        witness,
        to_add,
    ) == curve.scale(pow2(0), point_of(gates, curve, witness, to_add)) by {
        lemma_point_on_curve(gates, curve, witness, to_add.cell as int);
        curve.lemma_scale_one(point_of(gates, curve, witness, to_add));
    }
}

/// The double of a root is the root of the next table.
pub proof fn lemma_root_next(gates: Seq<Gate>, root: AssignedPoint, to_add: AssignedPoint, shift: nat)
    requires
        gates.len() <= usize::MAX,
        root_ready(gates, root, to_add, shift),
    ensures
        root_ready(
            gates.push(Gate::Double { a: root }),
            AssignedPoint { cell: gates.len() as usize },
            to_add,
            shift + 1,
        ),
{
    reveal(root_ready);
    let gate = Gate::Double { a: root };
    let more = gates.push(gate);
    let next = AssignedPoint { cell: gates.len() as usize };
    lemma_extends_push(gates, gate);
    lemma_persist(gates, more);
    lemma_pow2_unfold(shift + 1);
    assert forall|curve: Curve, witness: Witness|
        curve.is_group() && witness.fits(curve) implies #[trigger] point_of(
        more,
        curve,
        witness,
        next,
    ) == curve.scale(pow2(shift + 1), point_of(more, curve, witness, to_add)) by {
        let aux = point_of(gates, curve, witness, to_add);
        let r = point_of(gates, curve, witness, root);
        assert(more[gates.len() as int] == gate);
        assert(point_of(more, curve, witness, root) == r);
        assert(point_of(more, curve, witness, to_add) == aux);
        assert(point_of(more, curve, witness, next) == curve.twice(r));
        lemma_point_on_curve(gates, curve, witness, to_add.cell as int);
        lemma_point_on_curve(gates, curve, witness, root.cell as int);
        curve.lemma_twice(r);
        curve.lemma_scale_of_scale(2, pow2(shift), aux);
    }
}

/// A root stays a root when more operations are recorded.
pub proof fn lemma_root_persists(
    gates: Seq<Gate>,
    more: Seq<Gate>,
    root: AssignedPoint,
    to_add: AssignedPoint,
    shift: nat,
)
    requires
        extends(more, gates),
        root_ready(gates, root, to_add, shift),
    ensures
        root_ready(more, root, to_add, shift),
{
    reveal(root_ready);
    lemma_persist(gates, more);
    assert forall|curve: Curve, witness: Witness|
        curve.is_group() && witness.fits(curve) implies #[trigger] point_of(
        more,
        curve,
        witness,
        root,
    ) == curve.scale(pow2(shift), point_of(more, curve, witness, to_add)) by {
        assert(point_of(gates, curve, witness, root) == curve.scale(
            pow2(shift),
            point_of(gates, curve, witness, to_add),
        ));
    }
}

/// A table that was built over a root is ready.
pub proof fn lemma_table_ready(
    gates: Seq<Gate>,
    more: Seq<Gate>,
    table: Seq<AssignedPoint>,
    root: AssignedPoint,
    point: AssignedPoint,
    to_add: AssignedPoint,
    shift: nat,
    window: nat,
)
    requires
        extends(more, gates),
        root_ready(gates, root, to_add, shift),
        names_point(gates, point),
        table.len() == pow2(window),
        points_known(more, table),
        forall|curve: Curve, witness: Witness, v: int|
            curve.is_group() && witness.fits(curve) && 0 <= v < table.len()
                ==> #[trigger] point_of(more, curve, witness, table[v]) == curve.plus(
                point_of(gates, curve, witness, root),
                curve.scale(v as nat, point_of(gates, curve, witness, point)),
            ),
    ensures
        table_ready(more, table, point, to_add, shift, window),
{
    reveal(table_ready);
    reveal(root_ready);
    lemma_persist(gates, more);
    assert forall|curve: Curve, witness: Witness, v: int|
        curve.is_group() && witness.fits(curve) && 0 <= v < table.len()
            implies #[trigger] point_of(more, curve, witness, table[v]) == curve.plus(
        curve.scale(pow2(shift), point_of(more, curve, witness, to_add)),
        curve.scale(v as nat, point_of(more, curve, witness, point)),
    ) by {
        assert(point_of(gates, curve, witness, root) == curve.scale(
            pow2(shift),
            point_of(gates, curve, witness, to_add),
        ));
        assert(point_of(more, curve, witness, to_add) == point_of(gates, curve, witness, to_add));
        assert(point_of(more, curve, witness, point) == point_of(gates, curve, witness, point));
    }
}

/// A table that is ready stays ready when more operations are recorded.
pub proof fn lemma_table_persists(
    gates: Seq<Gate>,
    more: Seq<Gate>,
    table: Seq<AssignedPoint>,
    point: AssignedPoint,
    to_add: AssignedPoint,
    shift: nat,
    window: nat,
)
    requires
        extends(more, gates),
        names_point(gates, point),
        names_point(gates, to_add),
        table_ready(gates, table, point, to_add, shift, window),
    ensures
        table_ready(more, table, point, to_add, shift, window),
{
    reveal(table_ready);
    lemma_persist(gates, more);
    assert forall|v: int| 0 <= v < table.len() implies names_point(more, #[trigger] table[v]) by {
        assert(names_point(gates, table[v]));
    }
    assert forall|curve: Curve, witness: Witness, v: int|
        curve.is_group() && witness.fits(curve) && 0 <= v < table.len()
            implies #[trigger] point_of(more, curve, witness, table[v]) == curve.plus(
        curve.scale(pow2(shift), point_of(more, curve, witness, to_add)),
        curve.scale(v as nat, point_of(more, curve, witness, point)),
    ) by {
        assert(names_point(gates, table[v]));
        assert(point_of(gates, curve, witness, table[v]) == curve.plus(
            curve.scale(pow2(shift), point_of(gates, curve, witness, to_add)),
            curve.scale(v as nat, point_of(gates, curve, witness, point)),
        ));
        assert(point_of(more, curve, witness, to_add) == point_of(gates, curve, witness, to_add));
        assert(point_of(more, curve, witness, point) == point_of(gates, curve, witness, point));
    }
}

/// `windows` are `count` selectors of `window` bits each, all of them bits among `gates`.
#[verifier::opaque]
pub open spec fn windows_ready(
    gates: Seq<Gate>,
    windows: Seq<Seq<AssignedCondition>>,
    window: nat,
    count: nat,
) -> bool {
    &&& windows.len() == count
    &&& forall|i: int|
        0 <= i < count ==> (#[trigger] windows[i]).len() == window && conditions_known(
            gates,
            windows[i],
        )
}

/// A sweep over the windows of a batch: the region as it stands when the sweep begins,
/// and what the sweep works on.
pub struct Sweep {
    /// The operations recorded before the sweep.
    pub base: Seq<Gate>,
    /// The points that are multiplied.
    pub points: Seq<AssignedPoint>,
    /// The auxiliary point.
    pub to_add: AssignedPoint,
    /// The windows of each scalar.
    pub scalars: Seq<Seq<Seq<AssignedCondition>>>,
    /// The table of each point.
    pub tables: Seq<Seq<AssignedPoint>>,
    /// The number of bits of a window.
    pub window: nat,
    /// The number of windows of a scalar.
    pub windows: nat,
}

/// The sweep over the windows of one scalar.
pub open spec fn one_sweep(
    base: Seq<Gate>,
    point: AssignedPoint,
    to_add: AssignedPoint,
    windows: Seq<Seq<AssignedCondition>>,
    table: Seq<AssignedPoint>,
    window: nat,
    count: nat,
) -> Sweep {
    Sweep {
        base,
        points: seq![point],
        to_add,
        scalars: seq![windows],
        tables: seq![table],
        window,
        windows: count,
    }
}

/// The sweep over the windows of a batch.
pub open spec fn batch_sweep(
    base: Seq<Gate>,
    pairs: Seq<(AssignedPoint, AssignedInteger)>,
    to_add: AssignedPoint,
    windowed: Seq<Windowed>,
    tables: Seq<Table>,
    window: nat,
    count: nat,
) -> Sweep {
    Sweep {
        base,
        points: Seq::new(pairs.len(), |s: int| pairs[s].0),
        to_add,
        scalars: Seq::new(pairs.len(), |s: int| windowed[s]@),
        tables: Seq::new(pairs.len(), |s: int| tables[s]@),
        window,
        windows: count,
    }
}

impl Sweep {
    /// The number of pairs of the batch.
    pub open spec fn pairs(self) -> nat {
        self.points.len()
    }

    /// The sweep can begin: every scalar is cut into windows, and every point has its
    /// table.
    #[verifier::opaque]
    pub open spec fn ready(self) -> bool {
        &&& self.scalars.len() == self.pairs()
        &&& self.tables.len() == self.pairs()
        &&& names_point(self.base, self.to_add)
        &&& points_known(self.base, self.points)
        &&& forall|t: int|
            0 <= t < self.pairs() ==> windows_ready(
                self.base,
                #[trigger] self.scalars[t],
                self.window,
                self.windows,
            )
        &&& forall|t: int|
            0 <= t < self.pairs() ==> table_ready(
                self.base,
                #[trigger] self.tables[t],
                self.points[t],
                self.to_add,
                t as nat,
                self.window,
            )
    }

    /// The points that are multiplied, and after them the auxiliary point.
    pub open spec fn basis(self, curve: Curve, witness: Witness) -> Seq<Point> {
        Seq::new(
            self.pairs() + 1,
            |t: int|
                if t < self.pairs() {
                    point_of(self.base, curve, witness, self.points[t])
                } else {
                    point_of(self.base, curve, witness, self.to_add)
                },
        )
    }

    /// The number that window `i` of scalar `t` spells.
    pub open spec fn window_value(self, witness: Witness, t: int, i: int) -> nat {
        be_value(condition_values(self.base, witness, self.scalars[t][i]))
    }

    /// The number that the first `count` windows of scalar `t` spell.
    pub open spec fn prefix(self, witness: Witness, t: int, count: nat) -> nat {
        prefix_value(self.base, witness, self.scalars[t], self.window, count)
    }

    /// The coefficients of the accumulator when `i` windows are done for every pair, the
    /// accumulator is shifted by one window, and window `i` is added for the first `j`
    /// pairs.
    pub open spec fn coefficients(self, witness: Witness, i: nat, j: nat) -> Seq<nat> {
        Seq::new(
            self.pairs() + 1,
            |t: int|
                if t < self.pairs() {
                    if t < j {
                        self.prefix(witness, t, i + 1)
                    } else {
                        self.prefix(witness, t, i) * pow2(self.window)
                    }
                } else {
                    (blinding(self.window, self.pairs(), i) * pow2(self.window) + pow2(j)
                        - 1) as nat
                },
        )
    }

    /// `acc` holds the sum that `coefficients(i, j)` describes, whatever the curve and
    /// the witness.
    #[verifier::opaque]
    pub open spec fn holds(self, gates: Seq<Gate>, acc: AssignedPoint, i: nat, j: nat) -> bool {
        &&& names_point(gates, acc)
        &&& forall|curve: Curve, witness: Witness|
            curve.is_group() && witness.fits(curve) ==> #[trigger] point_of(
                gates,
                curve,
                witness,
                acc,
            ) == curve.combine(self.coefficients(witness, i, j), self.basis(curve, witness))
    }

    /// `picked` holds the entry of the table of pair `j` that window `i` of its scalar
    /// addresses, read among `gates`.
    #[verifier::opaque]
    pub open spec fn picks(
        self,
        gates: Seq<Gate>,
        more: Seq<Gate>,
        picked: AssignedPoint,
        i: int,
        j: int,
    ) -> bool {
        &&& names_point(more, picked)
        &&& forall|curve: Curve, witness: Witness| #[trigger]
            point_of(more, curve, witness, picked) == point_of(
                gates,
                curve,
                witness,
                self.tables[j][be_value(condition_values(gates, witness, self.scalars[j][i]))
                    as int],
            )
    }

    pub proof fn lemma_basis_on_curve(self, curve: Curve, witness: Witness)
        requires
            curve.is_group(),
            witness.fits(curve),
        ensures
            curve.has_all(self.basis(curve, witness)),
    {
        assert forall|t: int| 0 <= t < self.basis(curve, witness).len() implies curve.has(
            #[trigger] self.basis(curve, witness)[t],
        ) by {
            if t < self.pairs() {
                lemma_point_on_curve(self.base, curve, witness, self.points[t].cell as int);
            } else {
                lemma_point_on_curve(self.base, curve, witness, self.to_add.cell as int);
            }
        }
    }

    /// Before anything is added, the coefficients are zero.
    pub proof fn lemma_coefficients_start(self, witness: Witness)
        ensures
            self.coefficients(witness, 0, 0) == Seq::new(self.pairs() + 1, |t: int| 0nat),
    {
        vstd::arithmetic::power2::lemma2_to64();
        assert(repunit(self.window, 0) == 0);
        assert(blinding(self.window, self.pairs(), 0) == 0) by (nonlinear_arith)
            requires
                blinding(self.window, self.pairs(), 0) == 0 * ((pow2(self.pairs()) - 1) as nat),
        ;
        assert(self.coefficients(witness, 0, 0) =~= Seq::new(self.pairs() + 1, |t: int| 0nat)) by {
            assert forall|t: int| 0 <= t < self.pairs() + 1 implies self.coefficients(
                witness,
                0,
                0,
            )[t] == 0 by {
                if t < self.pairs() {
                    assert(self.prefix(witness, t, 0) == 0);
                    assert(0 * pow2(self.window) == 0);
                } else {
                    assert(0 * pow2(self.window) == 0);
                }
            }
        }
    }

    /// Shifting by one window, when window `i` is added for every pair, begins window
    /// `i + 1`.
    pub proof fn lemma_coefficients_shift(self, witness: Witness, i: nat)
        ensures
            scaled(pow2(self.window), self.coefficients(witness, i, self.pairs()))
                == self.coefficients(witness, i + 1, 0),
    {
        let w = pow2(self.window);
        let p = self.pairs();
        let full = (pow2(p) - 1) as nat;
        lemma_pow2_pos(p);
        vstd::arithmetic::power2::lemma2_to64();
        let k = blinding(self.window, p, i);
        let k1 = blinding(self.window, p, i + 1);
        assert(k1 == k * w + full) by {
            let r = repunit(self.window, i);
            assert(repunit(self.window, i + 1) == r * w + 1);
            assert((r * w + 1) * full == r * full * w + full) by (nonlinear_arith);
        }
        assert(scaled(w, self.coefficients(witness, i, p)) =~= self.coefficients(
            witness,
            i + 1,
            0,
        )) by {
            assert forall|t: int| 0 <= t < p + 1 implies scaled(
                w,
                self.coefficients(witness, i, p),
            )[t] == self.coefficients(witness, i + 1, 0)[t] by {
                if t < p {
                    let x = self.prefix(witness, t, i + 1);
                    assert(w * x == x * w) by (nonlinear_arith);
                } else {
                    assert(w * ((k * w + pow2(p) - 1) as nat) == k1 * w + 1 - 1)
                        by (nonlinear_arith)
                        requires
                            k1 == k * w + full,
                            full == pow2(p) - 1,
                            pow2(p) >= 1,
                    ;
                }
            }
        }
    }

    /// Adding the entry that window `i` of scalar `j` addresses moves on to the next
    /// pair.
    pub proof fn lemma_coefficients_step(self, witness: Witness, i: nat, j: nat)
        requires
            j < self.pairs(),
        ensures
            added(
                self.coefficients(witness, i, j),
                added(
                    single(self.pairs() + 1, j as int, self.window_value(witness, j as int, i as int)),
                    single(self.pairs() + 1, self.pairs() as int, pow2(j)),
                ),
            ) == self.coefficients(witness, i, j + 1),
    {
        let p = self.pairs();
        let v = self.window_value(witness, j as int, i as int);
        let step = added(single(p + 1, j as int, v), single(p + 1, p as int, pow2(j)));
        lemma_pow2_unfold(j + 1);
        lemma_pow2_pos(j);
        assert(added(self.coefficients(witness, i, j), step) =~= self.coefficients(
            witness,
            i,
            j + 1,
        )) by {
            assert forall|t: int| 0 <= t < p + 1 implies added(
                self.coefficients(witness, i, j),
                step,
            )[t] == self.coefficients(witness, i, j + 1)[t] by {
                if t == j {
                    assert(self.prefix(witness, t, i + 1) == self.prefix(witness, t, i) * pow2(
                        self.window,
                    ) + v);
                }
            }
        }
    }

    /// A window spells less than `2^window`, so it addresses an entry of a table.
    pub proof fn lemma_window_value_bound(self, witness: Witness, t: int, i: int)
        requires
            self.ready(),
            0 <= t < self.pairs(),
            0 <= i < self.windows,
        ensures
            self.window_value(witness, t, i) < pow2(self.window),
    {
        reveal(Sweep::ready);
        reveal(table_ready);
        reveal(windows_ready);
        let values = condition_values(self.base, witness, self.scalars[t][i]);
        assert(windows_ready(self.base, self.scalars[t], self.window, self.windows));
        assert(self.scalars[t][i].len() == self.window);
        lemma_be_value_bound(values);
    }

    /// The shift, for one curve and one witness: a multiple by `2^window` of the sum
    /// after window `i` is the sum that window `i + 1` begins with.
    pub proof fn lemma_shift_value(self, curve: Curve, witness: Witness, i: nat, x: Point)
        requires
            curve.is_group(),
            witness.fits(curve),
            x == curve.combine(
                self.coefficients(witness, i, self.pairs()),
                self.basis(curve, witness),
            ),
        ensures
            curve.scale(pow2(self.window), x) == curve.combine(
                self.coefficients(witness, i + 1, 0),
                self.basis(curve, witness),
            ),
    {
        self.lemma_basis_on_curve(curve, witness);
        self.lemma_coefficients_shift(witness, i);
        curve.lemma_combine_scale(
            pow2(self.window),
            self.coefficients(witness, i, self.pairs()),
            self.basis(curve, witness),
        );
    }

    /// The step, for one curve and one witness: the sum with the entry that window `i`
    /// of scalar `j` addresses is the sum for the next pair.
    pub proof fn lemma_step_value(self, curve: Curve, witness: Witness, i: nat, j: nat, x: Point, entry: Point)
        requires
            self.ready(),
            curve.is_group(),
            witness.fits(curve),
            j < self.pairs(),
            i < self.windows,
            x == curve.combine(self.coefficients(witness, i, j), self.basis(curve, witness)),
            entry == point_of(
                self.base,
                curve,
                witness,
                self.tables[j as int][self.window_value(witness, j as int, i as int) as int],
            ),
        ensures
            curve.plus(x, entry) == curve.combine(
                self.coefficients(witness, i, j + 1),
                self.basis(curve, witness),
            ),
    {
        reveal(Sweep::ready);
        reveal(table_ready);
        reveal(windows_ready);
        let p = self.pairs();
        let basis = self.basis(curve, witness);
        let v = self.window_value(witness, j as int, i as int);
        let root = single(p + 1, p as int, pow2(j));
        let multiple = single(p + 1, j as int, v);
        let aux = point_of(self.base, curve, witness, self.to_add);
        let point = point_of(self.base, curve, witness, self.points[j as int]);
        self.lemma_basis_on_curve(curve, witness);
        self.lemma_window_value_bound(witness, j as int, i as int);
        assert(table_ready(
            self.base,
            self.tables[j as int],
            self.points[j as int],
            self.to_add,
            j,
            self.window,
        ));
        assert(entry == curve.plus(curve.scale(pow2(j), aux), curve.scale(v, point)));
        assert(basis[p as int] == aux);
        assert(basis[j as int] == point);
        curve.lemma_combine_single(p as int, pow2(j), basis);
        curve.lemma_combine_single(j as int, v, basis);
        curve.lemma_combine_plus(root, multiple, basis);
        assert(added(root, multiple) =~= added(multiple, root));
        curve.lemma_combine_plus(self.coefficients(witness, i, j), added(multiple, root), basis);
        self.lemma_coefficients_step(witness, i, j);
    }

    /// What makes a sweep ready.
    pub proof fn lemma_ready(self)
        requires
            self.scalars.len() == self.pairs(),
            self.tables.len() == self.pairs(),
            names_point(self.base, self.to_add),
            points_known(self.base, self.points),
            forall|t: int|
                0 <= t < self.pairs() ==> windows_ready(
                    self.base,
                    #[trigger] self.scalars[t],
                    self.window,
                    self.windows,
                ),
            forall|t: int|
                0 <= t < self.pairs() ==> table_ready(
                    self.base,
                    #[trigger] self.tables[t],
                    self.points[t],
                    self.to_add,
                    t as nat,
                    self.window,
                ),
        ensures
            self.ready(),
    {
        reveal(Sweep::ready);
        reveal(table_ready);
        reveal(windows_ready);
    }

    /// Every scalar of a sweep that is ready has as many windows as the sweep.
    pub proof fn lemma_ready_windows(self, t: int)
        requires
            self.ready(),
            0 <= t < self.pairs(),
        ensures
            self.scalars.len() == self.pairs(),
            self.tables.len() == self.pairs(),
            self.scalars[t].len() == self.windows,
            names_point(self.base, self.to_add),
    {
        reveal(Sweep::ready);
        reveal(table_ready);
        reveal(windows_ready);
        assert(windows_ready(self.base, self.scalars[t], self.window, self.windows));
    }

    /// The selector of window `i` of scalar `j` and the table of pair `j` can be used
    /// among later operations.
    pub proof fn lemma_known_later(self, gates: Seq<Gate>, i: int, j: int)
        requires
            self.ready(),
            extends(gates, self.base),
            0 <= j < self.pairs(),
            0 <= i < self.windows,
        ensures
            conditions_known(gates, self.scalars[j][i]),
            points_known(gates, self.tables[j]),
            self.tables[j].len() == pow2(self.scalars[j][i].len()),
            self.scalars[j][i].len() == self.window,
            self.scalars[j].len() == self.windows,
    {
        reveal(Sweep::ready);
        reveal(table_ready);
        reveal(windows_ready);
        let selector = self.scalars[j][i];
        let table = self.tables[j];
        lemma_persist(self.base, gates);
        assert(windows_ready(self.base, self.scalars[j], self.window, self.windows));
        assert(conditions_known(self.base, selector));
        assert(table_ready(self.base, table, self.points[j], self.to_add, j as nat, self.window));
        assert forall|t: int| 0 <= t < selector.len() implies names_condition(
            gates,
            #[trigger] selector[t],
        ) by {
            assert(names_condition(self.base, selector[t]));
        }
        assert forall|t: int| 0 <= t < table.len() implies names_point(gates, #[trigger] table[t]) by {
            assert(names_point(self.base, table[t]));
        }
    }

    /// What was picked among later operations is the entry that the window addresses
    /// when the sweep begins.
    pub proof fn lemma_pick_value(
        self,
        gates: Seq<Gate>,
        more: Seq<Gate>,
        picked: AssignedPoint,
        i: nat,
        j: nat,
        curve: Curve,
        witness: Witness,
    )
        requires
            self.ready(),
            extends(gates, self.base),
            self.picks(gates, more, picked, i as int, j as int),
            j < self.pairs(),
            i < self.windows,
        ensures
            point_of(more, curve, witness, picked) == point_of(
                self.base,
                curve,
                witness,
                self.tables[j as int][self.window_value(witness, j as int, i as int) as int],
            ),
    {
        reveal(Sweep::ready);
        reveal(Sweep::picks);
        reveal(table_ready);
        reveal(windows_ready);
        let selector = self.scalars[j as int][i as int];
        let table = self.tables[j as int];
        lemma_persist(self.base, gates);
        assert(windows_ready(self.base, self.scalars[j as int], self.window, self.windows));
        assert(conditions_known(self.base, selector));
        assert(condition_values(gates, witness, selector) =~= condition_values(
            self.base,
            witness,
            selector,
        )) by {
            assert forall|t: int| 0 <= t < selector.len() implies condition_values(
                gates,
                witness,
                selector,
            )[t] == condition_values(self.base, witness, selector)[t] by {
                assert(names_condition(self.base, selector[t]));
            }
        }
        self.lemma_window_value_bound(witness, j as int, i as int);
        assert(table_ready(
            self.base,
            table,
            self.points[j as int],
            self.to_add,
            j,
            self.window,
        ));
        let v = self.window_value(witness, j as int, i as int) as int;
        assert(names_point(self.base, table[v]));
    }

    /// The first entry that is picked begins the accumulator.
    pub proof fn lemma_first(self, gates: Seq<Gate>, more: Seq<Gate>, picked: AssignedPoint)
        requires
            self.ready(),
            extends(gates, self.base),
            self.picks(gates, more, picked, 0, 0),
            0 < self.pairs(),
            0 < self.windows,
        ensures
            self.holds(more, picked, 0, 1),
    {
        reveal(Sweep::ready);
        reveal(Sweep::holds);
        reveal(Sweep::picks);
        reveal(table_ready);
        reveal(windows_ready);
        assert forall|curve: Curve, witness: Witness|
            curve.is_group() && witness.fits(curve) implies #[trigger] point_of(
            more,
            curve,
            witness,
            picked,
        ) == curve.combine(self.coefficients(witness, 0, 1), self.basis(curve, witness)) by {
            let entry = point_of(more, curve, witness, picked);
            self.lemma_pick_value(gates, more, picked, 0, 0, curve, witness);
            self.lemma_coefficients_start(witness);
            curve.lemma_combine_zero(self.basis(curve, witness));
            self.lemma_step_value(curve, witness, 0, 0, Point::Infinity, entry);
            lemma_point_on_curve(more, curve, witness, picked.cell as int);
            curve.lemma_plus_infinity(entry);
        }
    }

    /// An entry that is picked and added to the accumulator moves on to the next pair.
    pub proof fn lemma_add(
        self,
        gates: Seq<Gate>,
        more: Seq<Gate>,
        acc: AssignedPoint,
        picked: AssignedPoint,
        i: nat,
        j: nat,
    )
        requires
            self.ready(),
            extends(gates, self.base),
            extends(more, gates),
            more.len() <= usize::MAX,
            self.holds(gates, acc, i, j),
            self.picks(gates, more, picked, i as int, j as int),
            j < self.pairs(),
            i < self.windows,
        ensures
            self.holds(
                more.push(Gate::Add { a: acc, b: picked }),
                AssignedPoint { cell: more.len() as usize },
                i,
                j + 1,
            ),
    {
        reveal(Sweep::ready);
        reveal(Sweep::holds);
        reveal(Sweep::picks);
        reveal(table_ready);
        reveal(windows_ready);
        let gate = Gate::Add { a: acc, b: picked };
        let last = more.push(gate);
        let sum = AssignedPoint { cell: more.len() as usize };
        lemma_extends_push(more, gate);
        lemma_persist(more, last);
        lemma_persist(gates, more);
        assert forall|curve: Curve, witness: Witness|
            curve.is_group() && witness.fits(curve) implies #[trigger] point_of(
            last,
            curve,
            witness,
            sum,
        ) == curve.combine(self.coefficients(witness, i, j + 1), self.basis(curve, witness)) by {
            let x = point_of(gates, curve, witness, acc);
            let entry = point_of(more, curve, witness, picked);
            assert(last[more.len() as int] == gate);
            assert(point_of(last, curve, witness, acc) == x);
            assert(point_of(last, curve, witness, picked) == entry);
            assert(point_of(last, curve, witness, sum) == curve.plus(x, entry));
            self.lemma_pick_value(gates, more, picked, i, j, curve, witness);
            self.lemma_step_value(curve, witness, i, j, x, entry);
        }
    }

    /// Doubling the accumulator `window` times, when a window is added for every pair,
    /// begins the next window.
    pub proof fn lemma_double(self, gates: Seq<Gate>, acc: AssignedPoint, i: nat, n: usize)
        requires
            gates.len() <= usize::MAX,
            self.holds(gates, acc, i, self.pairs()),
            n == self.window,
        ensures
            self.holds(
                gates.push(Gate::DoubleN { a: acc, n }),
                AssignedPoint { cell: gates.len() as usize },
                i + 1,
                0,
            ),
    {
        reveal(Sweep::holds);
        let gate = Gate::DoubleN { a: acc, n };
        let last = gates.push(gate);
        let shifted = AssignedPoint { cell: gates.len() as usize };
        lemma_extends_push(gates, gate);
        lemma_persist(gates, last);
        assert forall|curve: Curve, witness: Witness|
            curve.is_group() && witness.fits(curve) implies #[trigger] point_of(
            last,
            curve,
            witness,
            shifted,
        ) == curve.combine(self.coefficients(witness, i + 1, 0), self.basis(curve, witness)) by {
            let x = point_of(gates, curve, witness, acc);
            assert(last[gates.len() as int] == gate);
            assert(point_of(last, curve, witness, acc) == x);
            assert(point_of(last, curve, witness, shifted) == curve.scale(pow2(n as nat), x));
            self.lemma_shift_value(curve, witness, i, x);
        }
    }

    /// With one pair: doubling the accumulator `window - 1` times and then doubling it
    /// once more as the next entry is added does what a shift by a whole window and an
    /// addition do.
    pub proof fn lemma_ladder(
        self,
        gates: Seq<Gate>,
        more: Seq<Gate>,
        acc: AssignedPoint,
        picked: AssignedPoint,
        i: nat,
        n: usize,
    )
        requires
            self.ready(),
            self.pairs() == 1,
            extends(gates, self.base),
            self.holds(gates, acc, i, 1),
            n + 1 == self.window,
            i + 1 < self.windows,
            extends(more, gates.push(Gate::DoubleN { a: acc, n })),
            more.len() <= usize::MAX,
            self.picks(gates.push(Gate::DoubleN { a: acc, n }), more, picked, (i + 1) as int, 0),
        ensures
            self.holds(
                more.push(
                    Gate::Ladder { acc: AssignedPoint { cell: gates.len() as usize }, addend: picked },
                ),
                AssignedPoint { cell: more.len() as usize },
                i + 1,
                1,
            ),
    {
        reveal(Sweep::ready);
        reveal(Sweep::holds);
        reveal(Sweep::picks);
        reveal(table_ready);
        reveal(windows_ready);
        let half = AssignedPoint { cell: gates.len() as usize };
        let doubling = Gate::DoubleN { a: acc, n };
        let middle = gates.push(doubling);
        let gate = Gate::Ladder { acc: half, addend: picked };
        let last = more.push(gate);
        let sum = AssignedPoint { cell: more.len() as usize };
        lemma_extends_push(gates, doubling);
        lemma_extends_push(more, gate);
        lemma_persist(gates, middle);
        lemma_persist(middle, more);
        lemma_persist(more, last);
        crate::region::lemma_extends_chain(self.base, gates, middle);
        lemma_pow2_unfold(self.window);
        assert forall|curve: Curve, witness: Witness|
            curve.is_group() && witness.fits(curve) implies #[trigger] point_of(
            last,
            curve,
            witness,
            sum,
        ) == curve.combine(self.coefficients(witness, i + 1, 1), self.basis(curve, witness)) by {
            let x = point_of(gates, curve, witness, acc);
            let h = curve.scale(pow2(n as nat), x);
            let entry = point_of(more, curve, witness, picked);
            assert(middle[gates.len() as int] == doubling);
            assert(point_of(middle, curve, witness, acc) == x);
            assert(point_of(middle, curve, witness, half) == h);
            assert(last[more.len() as int] == gate);
            assert(point_of(last, curve, witness, half) == h);
            assert(point_of(last, curve, witness, picked) == entry);
            assert(point_of(last, curve, witness, sum) == curve.plus(curve.twice(h), entry));
            lemma_point_on_curve(gates, curve, witness, acc.cell as int);
            curve.lemma_scale_closed(pow2(n as nat), x);
            curve.lemma_twice(h);
            curve.lemma_scale_of_scale(2, pow2(n as nat), x);
            assert(curve.twice(h) == curve.scale(pow2(self.window), x));
            self.lemma_shift_value(curve, witness, i, x);
            self.lemma_pick_value(middle, more, picked, i + 1, 0, curve, witness);
            self.lemma_step_value(curve, witness, i + 1, 0, curve.twice(h), entry);
        }
    }

    /// The numbers that the scalars' windows spell, all windows taken.
    pub open spec fn products(self, witness: Witness) -> Seq<nat> {
        Seq::new(self.pairs(), |t: int| self.prefix(witness, t, self.windows))
    }

    /// The points that are multiplied, as they stand when the sweep begins.
    pub open spec fn multiplied(self, curve: Curve, witness: Witness) -> Seq<Point> {
        Seq::new(self.pairs(), |t: int| point_of(self.base, curve, witness, self.points[t]))
    }

    /// `result` holds the sum of the products of the sweep and, on top of it, the
    /// auxiliary point as often as `blinding` says, plus `to_sub`.
    #[verifier::opaque]
    pub open spec fn unblinded(self, gates: Seq<Gate>, result: AssignedPoint, to_sub: AssignedPoint) -> bool {
        forall|curve: Curve, witness: Witness|
            curve.is_group() && witness.fits(curve) ==> #[trigger] point_of(
                gates,
                curve,
                witness,
                result,
            ) == curve.plus(
                curve.plus(
                    curve.combine(self.products(witness), self.multiplied(curve, witness)),
                    curve.scale(
                        blinding(self.window, self.pairs(), self.windows),
                        point_of(self.base, curve, witness, self.to_add),
                    ),
                ),
                point_of(self.base, curve, witness, to_sub),
            )
    }

    /// After the last window the accumulator holds the sum of the products and, on top
    /// of it, the auxiliary point as often as `blinding` says. Adding `to_sub` gives the
    /// result.
    pub proof fn lemma_unblind(self, gates: Seq<Gate>, acc: AssignedPoint, to_sub: AssignedPoint)
        requires
            self.windows >= 1,
            gates.len() <= usize::MAX,
            extends(gates, self.base),
            names_point(self.base, to_sub),
            self.holds(gates, acc, (self.windows - 1) as nat, self.pairs()),
        ensures
            self.unblinded(
                gates.push(Gate::Add { a: acc, b: to_sub }),
                AssignedPoint { cell: gates.len() as usize },
                to_sub,
            ),
    {
        reveal(Sweep::holds);
        reveal(Sweep::unblinded);
        let gate = Gate::Add { a: acc, b: to_sub };
        let last = gates.push(gate);
        let result = AssignedPoint { cell: gates.len() as usize };
        let m = self.windows;
        let p = self.pairs();
        let k = blinding(self.window, p, m);
        lemma_extends_push(gates, gate);
        lemma_persist(gates, last);
        lemma_persist(self.base, gates);
        lemma_pow2_pos(p);
        assert(k == blinding(self.window, p, (m - 1) as nat) * pow2(self.window) + pow2(p) - 1) by {
            let r = repunit(self.window, (m - 1) as nat);
            let w = pow2(self.window);
            let full = (pow2(p) - 1) as nat;
            assert(repunit(self.window, m) == r * w + 1);
            assert((r * w + 1) * full == r * full * w + full) by (nonlinear_arith);
        }
        assert forall|curve: Curve, witness: Witness|
            curve.is_group() && witness.fits(curve) implies #[trigger] point_of(
            last,
            curve,
            witness,
            result,
        ) == curve.plus(
            curve.plus(
                curve.combine(self.products(witness), self.multiplied(curve, witness)),
                curve.scale(k, point_of(self.base, curve, witness, self.to_add)),
            ),
            point_of(self.base, curve, witness, to_sub),
        ) by {
            let x = point_of(gates, curve, witness, acc);
            assert(last[gates.len() as int] == gate);
            assert(point_of(last, curve, witness, acc) == x);
            assert(point_of(last, curve, witness, to_sub) == point_of(
                self.base,
                curve,
                witness,
                to_sub,
            ));
            assert(point_of(last, curve, witness, result) == curve.plus(
                x,
                point_of(self.base, curve, witness, to_sub),
            ));
            assert(self.coefficients(witness, (m - 1) as nat, p) =~= self.products(witness).push(k));
            assert(self.basis(curve, witness) =~= self.multiplied(curve, witness).push(
                point_of(self.base, curve, witness, self.to_add),
            ));
            curve.lemma_combine_push(
                self.products(witness),
                self.multiplied(curve, witness),
                k,
                point_of(self.base, curve, witness, self.to_add),
            );
        }
    }
}

} // verus!
