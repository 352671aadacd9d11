//! Multiplication of emulated curve points by emulated scalars, in windows.

use crate::bits::{lemma_padding, padding, window_count};
use crate::curve::{Curve, Point};
use crate::ecc::MulAux;
use crate::ecc::general_ecc::GeneralEccChip;
use crate::ecc::general_ecc::accumulator::{batch_sweep, blinding, one_sweep, Sweep};
use crate::ecc::general_ecc::layout::{
    batch_gates, batch_sweep_gates, batch_sweep_result, batch_sweep_rows, batch_table,
    batch_windows, decompositions, mul_gates, sweep_gates, sweep_result, tables_gates,
};
use crate::ecc::general_ecc::table::{table_entries, table_gates, table_rows};
use crate::ecc::general_ecc::windows::{chunks, padded_bits, scalar_ready, zero_gates};
use crate::error::Error;
use crate::region::{
    extends, integer_value, lemma_extends_chain, lemma_extends_self, lemma_persist,
    lemma_point_on_curve, names_integer, names_point, point_of, AssignedCondition, AssignedInteger,
    AssignedPoint, Gate, Region, Witness,
};
use vstd::arithmetic::power2::pow2;
use vstd::prelude::*;

verus! {

/// The rows that a multiplication takes: one for the decomposition, one for each bit of
/// padding, those of the table, those of one selection for each window, two for each
/// window but the first to bring its entry in, and one for `to_sub`.
pub open spec fn mul_rows(bits: nat, window: nat) -> nat {
    let windows = window_count(bits, window);
    (1 + padding(bits, window) + table_rows(window) + windows * table_rows(window) + 2 * (windows
        - 1) + 1) as nat
}

/// The rows that a batch multiplication of `pairs` pairs takes: for each pair one for
/// the decomposition, one for each bit of padding and those of its table; one for each
/// doubling of the root between two tables; for the first window a selection for each
/// pair and an addition for each pair but the first; for each further window one for
/// the doublings and a selection and an addition for each pair; and one for `to_sub`.
pub open spec fn batch_rows(bits: nat, window: nat, pairs: nat) -> nat {
    let windows = window_count(bits, window);
    (pairs * (1 + padding(bits, window)) + pairs * table_rows(window) + (pairs - 1) + pairs
        * table_rows(window) + (pairs - 1) + (windows - 1) * (1 + pairs * (table_rows(window) + 1))
        + 1) as nat
}

/// How often the auxiliary point is counted in the sum of a batch of `pairs` pairs before
/// `to_sub` is added: once for each window and table, with the weight of the window and
/// of the table.
pub open spec fn blind_factor(bits: nat, window: nat, pairs: nat) -> nat {
    blinding(window, pairs, window_count(bits, window))
}

/// The numbers in the scalars of `pairs` under `witness`.
pub open spec fn scalars_of(witness: Witness, pairs: Seq<(AssignedPoint, AssignedInteger)>) -> Seq<nat> {
    Seq::new(pairs.len(), |t: int| integer_value(witness, pairs[t].1))
}

/// The points of `pairs` under `witness`, on `curve`.
pub open spec fn points_of(
    gates: Seq<Gate>,
    curve: Curve,
    witness: Witness,
    pairs: Seq<(AssignedPoint, AssignedInteger)>,
) -> Seq<Point> {
    Seq::new(pairs.len(), |t: int| point_of(gates, curve, witness, pairs[t].0))
}

/// Every scalar of `pairs` has no more than `width` bits under `witness`.
pub open spec fn in_range(
    witness: Witness,
    pairs: Seq<(AssignedPoint, AssignedInteger)>,
    width: nat,
) -> bool {
    forall|t: int|
        0 <= t < pairs.len() ==> integer_value(witness, (#[trigger] pairs[t]).1) < pow2(width)
}

/// Every pair of `pairs` names a point and an integer among `gates`.
pub open spec fn pairs_known(gates: Seq<Gate>, pairs: Seq<(AssignedPoint, AssignedInteger)>) -> bool {
    forall|t: int|
        0 <= t < pairs.len() ==> names_point(gates, (#[trigger] pairs[t]).0) && names_integer(
            gates,
            pairs[t].1,
        )
}

/// `result` holds the sum of the products of `pairs` with the blinding on top of it,
/// and the sum alone where `to_sub` cancels what `to_add` brought in.
#[verifier::opaque]
pub open spec fn multiplies(
    before: Seq<Gate>,
    after: Seq<Gate>,
    result: AssignedPoint,
    pairs: Seq<(AssignedPoint, AssignedInteger)>,
    aux: MulAux,
    factor: nat,
    width: nat,
) -> bool {
    forall|curve: Curve, witness: Witness|
        curve.is_group() && witness.fits(curve) && in_range(witness, pairs, width) ==> {
            let sum = curve.combine(
                scalars_of(witness, pairs),
                points_of(before, curve, witness, pairs),
            );
            let to_add = point_of(before, curve, witness, aux.to_add);
            let to_sub = point_of(before, curve, witness, aux.to_sub);
            &&& #[trigger] point_of(after, curve, witness, result) == curve.plus(
                curve.plus(sum, curve.scale(factor, to_add)),
                to_sub,
            )
            &&& to_sub == curve.neg(curve.scale(factor, to_add)) ==> point_of(
                after,
                curve,
                witness,
                result,
            ) == sum
        }
}

/// Blind cancellation, for one sum: where `to_sub` is the negative of `factor` times
/// `to_add`, adding it takes the blinding away and leaves the sum.
pub proof fn lemma_blind_cancels(curve: Curve, sum: Point, factor: nat, to_add: Point, to_sub: Point)
    requires
        curve.is_group(),
        curve.has(sum),
        curve.has(to_add),
        to_sub == curve.neg(curve.scale(factor, to_add)),
    ensures
        curve.plus(curve.plus(sum, curve.scale(factor, to_add)), to_sub) == sum,
{
    curve.lemma_scale_closed(factor, to_add);
    curve.lemma_cancel(sum, curve.scale(factor, to_add));
}

/// Blind cancellation, for two multiplications: the result does not depend on the
/// auxiliary pair. Two multiplications of the same points by the same scalars, each with
/// an auxiliary pair of its own whose `to_sub` is the negative of `factor` times its
/// `to_add`, hold the same result, in whatever regions they were recorded.
pub proof fn lemma_result_independent_of_aux(
    curve: Curve,
    factor: nat,
    width: nat,
    first_before: Seq<Gate>,
    first_after: Seq<Gate>,
    first_result: AssignedPoint,
    first_pairs: Seq<(AssignedPoint, AssignedInteger)>,
    first_aux: MulAux,
    first_witness: Witness,
    second_before: Seq<Gate>,
    second_after: Seq<Gate>,
    second_result: AssignedPoint,
    second_pairs: Seq<(AssignedPoint, AssignedInteger)>,
    second_aux: MulAux,
    second_witness: Witness,
)
    requires
        curve.is_group(),
        first_witness.fits(curve),
        second_witness.fits(curve),
        in_range(first_witness, first_pairs, width),
        in_range(second_witness, second_pairs, width),
        multiplies(first_before, first_after, first_result, first_pairs, first_aux, factor, width),
        multiplies(
            second_before,
            second_after,
            second_result,
            second_pairs,
            second_aux,
            factor,
            width,
        ),
        scalars_of(first_witness, first_pairs) == scalars_of(second_witness, second_pairs),
        points_of(first_before, curve, first_witness, first_pairs) == points_of(
            second_before,
            curve,
            second_witness,
            second_pairs,
        ),
        point_of(first_before, curve, first_witness, first_aux.to_sub) == curve.neg(
            curve.scale(factor, point_of(first_before, curve, first_witness, first_aux.to_add)),
        ),
        point_of(second_before, curve, second_witness, second_aux.to_sub) == curve.neg(
            curve.scale(factor, point_of(second_before, curve, second_witness, second_aux.to_add)),
        ),
    ensures
        point_of(first_after, curve, first_witness, first_result) == point_of(
            second_after,
            curve,
            second_witness,
            second_result,
        ),
        point_of(first_after, curve, first_witness, first_result) == curve.combine(
            scalars_of(first_witness, first_pairs),
            points_of(first_before, curve, first_witness, first_pairs),
        ),
{
    reveal(multiplies);
    assert(point_of(first_after, curve, first_witness, first_result) == curve.combine(
        scalars_of(first_witness, first_pairs),
        points_of(first_before, curve, first_witness, first_pairs),
    ));
    assert(point_of(second_after, curve, second_witness, second_result) == curve.combine(
        scalars_of(second_witness, second_pairs),
        points_of(second_before, curve, second_witness, second_pairs),
    ));
}

/// A sweep is prepared for `pairs`: it is ready, it works on the points of `pairs` and on
/// windows that spell their scalars, and it begins after the operations of `before`.
#[verifier::opaque]
pub open spec fn prepared(
    sweep: Sweep,
    before: Seq<Gate>,
    pairs: Seq<(AssignedPoint, AssignedInteger)>,
    aux: MulAux,
    width: nat,
) -> bool {
    &&& sweep.ready()
    &&& sweep.pairs() == pairs.len()
    &&& sweep.to_add == aux.to_add
    &&& forall|t: int| 0 <= t < pairs.len() ==> sweep.points[t] == (#[trigger] pairs[t]).0
    &&& forall|t: int|
        0 <= t < pairs.len() ==> scalar_ready(
            sweep.base,
            #[trigger] sweep.scalars[t],
            pairs[t].1,
            sweep.window,
            sweep.windows,
            width,
        )
    &&& extends(sweep.base, before)
    &&& pairs_known(before, pairs)
    &&& names_point(before, aux.to_add)
    &&& names_point(before, aux.to_sub)
}

/// What a sweep leaves, once `to_sub` is added, is what a batch multiplication owes.
pub proof fn lemma_sweep_multiplies(
    sweep: Sweep,
    before: Seq<Gate>,
    after: Seq<Gate>,
    result: AssignedPoint,
    pairs: Seq<(AssignedPoint, AssignedInteger)>,
    aux: MulAux,
    width: nat,
)
    requires
        prepared(sweep, before, pairs, aux, width),
        sweep.unblinded(after, result, aux.to_sub),
    ensures
        multiplies(
            before,
            after,
            result,
            pairs,
            aux,
            blinding(sweep.window, sweep.pairs(), sweep.windows),
            width,
        ),
{
    reveal(prepared);
    reveal(Sweep::unblinded);
    reveal(scalar_ready);
    reveal(Sweep::ready);
    reveal(multiplies);
    let factor = blinding(sweep.window, sweep.pairs(), sweep.windows);
    lemma_persist(before, sweep.base);
    assert forall|curve: Curve, witness: Witness|
        curve.is_group() && witness.fits(curve) && in_range(witness, pairs, width) implies ({
        let sum = curve.combine(
            scalars_of(witness, pairs),
            points_of(before, curve, witness, pairs),
        );
        let to_add = point_of(before, curve, witness, aux.to_add);
        let to_sub = point_of(before, curve, witness, aux.to_sub);
        &&& #[trigger] point_of(after, curve, witness, result) == curve.plus(
            curve.plus(sum, curve.scale(factor, to_add)),
            to_sub,
        )
        &&& to_sub == curve.neg(curve.scale(factor, to_add)) ==> point_of(
            after,
            curve,
            witness,
            result,
        ) == sum
    }) by {
        let scalars = scalars_of(witness, pairs);
        let points = points_of(before, curve, witness, pairs);
        let to_add = point_of(before, curve, witness, aux.to_add);
        assert(sweep.products(witness) =~= scalars) by {
            assert forall|t: int| 0 <= t < pairs.len() implies sweep.products(witness)[t]
                == scalars[t] by {
                assert(scalar_ready(
                    sweep.base,
                    sweep.scalars[t],
                    pairs[t].1,
                    sweep.window,
                    sweep.windows,
                    width,
                ));
                assert(integer_value(witness, pairs[t].1) < pow2(width));
            }
        }
        assert(sweep.multiplied(curve, witness) =~= points) by {
            assert forall|t: int| 0 <= t < pairs.len() implies sweep.multiplied(curve, witness)[t]
                == points[t] by {
                assert(names_point(before, pairs[t].0));
            }
        }
        assert(curve.has_all(points)) by {
            assert forall|t: int| 0 <= t < points.len() implies curve.has(#[trigger] points[t]) by {
                lemma_point_on_curve(before, curve, witness, pairs[t].0.cell as int);
            }
        }
        curve.lemma_combine_closed(scalars, points);
        lemma_point_on_curve(before, curve, witness, aux.to_add.cell as int);
        curve.lemma_scale_closed(factor, to_add);
        curve.lemma_cancel(curve.combine(scalars, points), curve.scale(factor, to_add));
    }
}

/// The rows of a multiplication, put together from its parts.
pub proof fn lemma_mul_gates(
    before: Seq<Gate>,
    tabled: Seq<Gate>,
    swept: Seq<Gate>,
    last: Seq<Gate>,
    bits: nat,
    window: nat,
    point: AssignedPoint,
    scalar: AssignedInteger,
    aux: MulAux,
    windows: Seq<Seq<AssignedCondition>>,
    table: Seq<AssignedPoint>,
    acc: AssignedPoint,
)
    requires
        window > 0,
        tabled == before.push(Gate::Decompose { integer: scalar, bits: bits as usize })
            + zero_gates(padding(bits, window)) + table_gates(
            before.len() + 1 + padding(bits, window),
            aux.to_add,
            point,
            window,
        ),
        tabled.len() == before.len() + 1 + padding(bits, window) + table_rows(window),
        windows == chunks(padded_bits(before.len(), before.len() + 1, bits, window), window),
        table == table_entries(before.len() + 1 + padding(bits, window), aux.to_add, window),
        swept == tabled + sweep_gates(tabled.len(), windows, table, window),
        acc == sweep_result(tabled.len(), windows, table, window),
        swept.len() == tabled.len() + table_rows(window) + (window_count(bits, window) - 1) * (
        table_rows(window) + 2),
        last == swept.push(Gate::Add { a: acc, b: aux.to_sub }),
    ensures
        last == before + mul_gates(before.len(), bits, window, point, scalar, aux),
        last.len() == before.len() + mul_rows(bits, window),
{
    let first = before.len();
    let rows = table_rows(window);
    let m = window_count(bits, window);
    let step = rows + 2;
    lemma_padding(bits, window);
    assert(last =~= before + mul_gates(first, bits, window, point, scalar, aux));
    assert((m - 1) * step == m * rows - rows + 2 * m - 2) by (nonlinear_arith)
        requires
            step == rows + 2,
    ;
    assert(m * rows >= 0) by (nonlinear_arith)
        requires
            m >= 0,
            rows >= 0,
    ;
}

/// The rows of a batch multiplication, put together from its parts.
pub proof fn lemma_batch_gates(
    before: Seq<Gate>,
    tabled: Seq<Gate>,
    swept: Seq<Gate>,
    last: Seq<Gate>,
    bits: nat,
    window: nat,
    pairs: Seq<(AssignedPoint, AssignedInteger)>,
    aux: MulAux,
    scalars: Seq<Seq<Seq<AssignedCondition>>>,
    tables: Seq<Seq<AssignedPoint>>,
    acc: AssignedPoint,
)
    requires
        window > 0,
        bits > 0,
        pairs.len() > 0,
        tabled == before + decompositions(pairs, bits) + zero_gates(
            pairs.len() * padding(bits, window),
        ) + tables_gates(
            before.len() + pairs.len() + pairs.len() * padding(bits, window),
            aux.to_add,
            pairs,
            window,
            0,
        ),
        tabled.len() == before.len() + pairs.len() + pairs.len() * padding(bits, window)
            + pairs.len() * table_rows(window) + pairs.len() - 1,
        scalars.len() == pairs.len(),
        tables.len() == pairs.len(),
        forall|t: int|
            0 <= t < pairs.len() ==> #[trigger] scalars[t] == batch_windows(
                before.len(),
                bits,
                window,
                pairs.len(),
                t as nat,
            ),
        forall|t: int|
            0 <= t < pairs.len() ==> #[trigger] tables[t] == batch_table(
                before.len() + pairs.len() + pairs.len() * padding(bits, window),
                aux.to_add,
                window,
                t as nat,
            ),
        swept == tabled + batch_sweep_gates(
            tabled.len(),
            scalars,
            tables,
            window,
            window_count(bits, window),
        ),
        acc == batch_sweep_result(tabled.len(), scalars, tables, window, window_count(bits, window)),
        swept.len() == tabled.len() + batch_sweep_rows(
            window,
            window_count(bits, window),
            pairs.len(),
        ),
        last == swept.push(Gate::Add { a: acc, b: aux.to_sub }),
    ensures
        last == before + batch_gates(before.len(), bits, window, pairs, aux),
        last.len() == before.len() + batch_rows(bits, window, pairs.len()),
{
    let first = before.len();
    let p = pairs.len();
    let k = padding(bits, window);
    let rows = table_rows(window);
    let m = window_count(bits, window);
    lemma_padding(bits, window);
    assert(p * k >= 0 && p * rows >= 0) by (nonlinear_arith)
        requires
            p >= 0,
            k >= 0,
            rows >= 0,
    ;
    assert((p - 1) * (rows + 1) == p * rows + p - rows - 1) by (nonlinear_arith);
    assert(p * (1 + k) == p + p * k) by (nonlinear_arith);
    assert((m - 1) * (1 + p * (rows + 1)) >= 0) by (nonlinear_arith)
        requires
            m >= 1,
            p >= 1,
            rows >= 0,
    ;
    assert(scalars =~= Seq::new(p, |t: int| batch_windows(first, bits, window, p, t as nat)));
    assert(tables =~= Seq::new(
        p,
        |t: int| batch_table(first + p + p * k, aux.to_add, window, t as nat),
    ));
    assert(last =~= before + batch_gates(first, bits, window, pairs, aux));
}

/// What a multiplication of one pair owes, said of the multiple of its point.
pub proof fn lemma_multiplies_one(
    before: Seq<Gate>,
    after: Seq<Gate>,
    product: AssignedPoint,
    point: AssignedPoint,
    scalar: AssignedInteger,
    aux: MulAux,
    factor: nat,
    width: nat,
)
    requires
        multiplies(before, after, product, seq![(point, scalar)], aux, factor, width),
    ensures
        forall|curve: Curve, witness: Witness|
            curve.is_group() && witness.fits(curve) && integer_value(witness, scalar) < pow2(width)
                ==> {
                let multiple = curve.scale(
                    integer_value(witness, scalar),
                    point_of(before, curve, witness, point),
                );
                let to_add = point_of(before, curve, witness, aux.to_add);
                let to_sub = point_of(before, curve, witness, aux.to_sub);
                &&& #[trigger] point_of(after, curve, witness, product) == curve.plus(
                    curve.plus(multiple, curve.scale(factor, to_add)),
                    to_sub,
                )
                &&& to_sub == curve.neg(curve.scale(factor, to_add)) ==> point_of(
                    after,
                    curve,
                    witness,
                    product,
                ) == multiple
            },
{
    reveal(multiplies);
    let pairs = seq![(point, scalar)];
    assert forall|curve: Curve, witness: Witness|
        curve.is_group() && witness.fits(curve) && integer_value(witness, scalar) < pow2(
            width,
        ) implies ({
        let multiple = curve.scale(
            integer_value(witness, scalar),
            point_of(before, curve, witness, point),
        );
        let to_add = point_of(before, curve, witness, aux.to_add);
        let to_sub = point_of(before, curve, witness, aux.to_sub);
        &&& #[trigger] point_of(after, curve, witness, product) == curve.plus(
            curve.plus(multiple, curve.scale(factor, to_add)),
            to_sub,
        )
        &&& to_sub == curve.neg(curve.scale(factor, to_add)) ==> point_of(
            after,
            curve,
            witness,
            product,
        ) == multiple
    }) by {
        let n = integer_value(witness, scalar);
        let p = point_of(before, curve, witness, point);
        assert(in_range(witness, pairs, width));
        assert(scalars_of(witness, pairs) =~= seq![n]);
        assert(points_of(before, curve, witness, pairs) =~= seq![p]);
        lemma_point_on_curve(before, curve, witness, point.cell as int);
        lemma_single_product(curve, n, p);
    }
}

/// A combination of one point is a multiple of it.
pub proof fn lemma_single_product(curve: Curve, n: nat, p: Point)
    requires
        curve.is_group(),
        curve.has(p),
    ensures
        curve.combine(seq![n], seq![p]) == curve.scale(n, p),
{
    let coefficients = seq![n];
    let points = seq![p];
    assert(points.drop_last().len() == 0);
    assert(curve.combine(coefficients.drop_last(), points.drop_last()) == Point::Infinity);
    assert(coefficients.last() == n);
    assert(points.last() == p);
    curve.lemma_scale_closed(n, p);
    curve.lemma_plus_infinity(curve.scale(n, p));
}

impl GeneralEccChip {
    /// Multiplies `point` by `scalar`, in windows of `window_size` bits.
    ///
    /// The scalar is decomposed, padded and cut into windows, and one table is built for
    /// `point` over the auxiliary point. The entry of the first window begins the
    /// accumulator. It is doubled `window_size` times and the entry of the second window
    /// is added. For each further window the accumulator is doubled `window_size - 1`
    /// times, and doubled once more as the entry of the window is added. At last
    /// `to_sub` is added. A scalar of one window has the entry of that window and
    /// `to_sub` added, and nothing is doubled.
    ///
    /// Nothing is recorded unless all of it can be.
    pub fn mul(
        &self,
        region: &mut Region,
        point: &AssignedPoint,
        scalar: &AssignedInteger,
        window_size: usize,
    ) -> (result: Result<AssignedPoint, Error>)
        requires
            window_size > 0,
            self.bits() > 0,
            pow2(window_size as nat) <= usize::MAX,
        ensures
            extends(final(region)@, old(region)@),
            old(region).wf() ==> final(region).wf(),
            match result {
                Ok(product) => {
                    &&& self.aux(window_size, 1) matches Some(aux)
                    &&& old(region).has_point(*point)
                    &&& old(region).has_integer(*scalar)
                    &&& old(region).has_point(aux.to_add)
                    &&& old(region).has_point(aux.to_sub)
                    &&& final(region).has_point(product)
                    &&& product.cell == final(region)@.len() - 1
                    &&& final(region)@ == old(region)@ + mul_gates(
                        old(region)@.len(),
                        self.bits(),
                        window_size as nat,
                        *point,
                        *scalar,
                        aux,
                    )
                    &&& final(region)@.len() == old(region)@.len() + mul_rows(
                        self.bits(),
                        window_size as nat,
                    )
                    &&& multiplies(
                        old(region)@,
                        final(region)@,
                        product,
                        seq![(*point, *scalar)],
                        aux,
                        blind_factor(self.bits(), window_size as nat, 1),
                        self.bits(),
                    )
                    &&& forall|curve: Curve, witness: Witness|
                        curve.is_group() && witness.fits(curve) && integer_value(witness, *scalar)
                            < pow2(self.bits()) ==> {
                            let multiple = curve.scale(
                                integer_value(witness, *scalar),
                                point_of(old(region)@, curve, witness, *point),
                            );
                            let to_add = point_of(old(region)@, curve, witness, aux.to_add);
                            let to_sub = point_of(old(region)@, curve, witness, aux.to_sub);
                            let factor = blind_factor(self.bits(), window_size as nat, 1);
                            &&& #[trigger] point_of(final(region)@, curve, witness, product)
                                == curve.plus(
                                curve.plus(multiple, curve.scale(factor, to_add)),
                                to_sub,
                            )
                            &&& to_sub == curve.neg(curve.scale(factor, to_add)) ==> point_of(
                                final(region)@,
                                curve,
                                witness,
                                product,
                            ) == multiple
                        }
                },
                Err(e) => {
                    &&& final(region)@ == old(region)@
                    &&& match self.aux(window_size, 1) {
                        None => e == Error::Synthesis,
                        Some(aux) => {
                            &&& e == Error::UnknownCell
                            &&& !(old(region).has_point(*point) && old(region).has_integer(*scalar)
                                && old(region).has_point(aux.to_add) && old(region).has_point(
                                aux.to_sub,
                            ))
                        },
                    }
                },
            },
    {
        let ghost before = region@;
        let ghost width = self.bits();
        let ghost window = window_size as nat;
        let ghost m = window_count(width, window);
        proof {
            lemma_extends_self(before);
            lemma_padding(width, window);
        }
        let aux = self.get_mul_aux(window_size, 1)?;
        if !region.contains_point(point) || !region.contains_integer(scalar)
            || !region.contains_point(&aux.to_add) || !region.contains_point(&aux.to_sub) {
            return Err(Error::UnknownCell);
        }
        let (windowed, table) = self.prepare_one(region, point, scalar, &aux, window_size)?;
        let ghost sweep = one_sweep(region@, *point, aux.to_add, windowed@, table@, window, m);
        proof {
            lemma_extends_self(sweep.base);
        }
        let acc = self.sweep_one(region, &windowed, &table, window_size, Ghost(sweep))?;
        let ghost swept = region@;
        let product = self.unblind(region, &acc, &aux.to_sub, Ghost(sweep))?;
        proof {
            let last = region@;
            let pairs = seq![(*point, *scalar)];
            lemma_mul_gates(
                before,
                sweep.base,
                swept,
                last,
                width,
                window,
                *point,
                *scalar,
                aux,
                windowed@,
                table@,
                acc,
            );
            lemma_extends_chain(sweep.base, swept, last);
            lemma_extends_chain(before, sweep.base, last);
            lemma_sweep_multiplies(sweep, before, last, product, pairs, aux, width);
            lemma_multiplies_one(before, last, product, *point, *scalar, aux, blind_factor(
                width,
                window,
                1,
            ), width);
        }
        Ok(product)
    }

    /// Multiplies each point of `pairs` by its scalar and adds the products up, in
    /// windows of `window_size` bits.
    ///
    /// All scalars are decomposed, then padded and cut into windows. Each point gets a
    /// table of its own: the first over the auxiliary point, each further one over the
    /// double of the root before, so that no two tables share an entry. The entries that
    /// the first windows address are added up. For each further window the accumulator
    /// is doubled `window_size` times, and the entries that the window addresses in the
    /// tables are added to it, in the order of the pairs. At last `to_sub` is added.
    ///
    /// Nothing is recorded unless all of it can be.
    pub fn mul_batch_1d_horizontal(
        &self,
        region: &mut Region,
        pairs: Vec<(AssignedPoint, AssignedInteger)>,
        window_size: usize,
    ) -> (result: Result<AssignedPoint, Error>)
        requires
            window_size > 0,
            pairs@.len() > 0,
            self.bits() > 0,
            pow2(window_size as nat) <= usize::MAX,
        ensures
            extends(final(region)@, old(region)@),
            old(region).wf() ==> final(region).wf(),
            match result {
                Ok(sum) => {
                    &&& self.aux(window_size, pairs@.len() as usize) matches Some(aux)
                    &&& pairs_known(old(region)@, pairs@)
                    &&& old(region).has_point(aux.to_add)
                    &&& old(region).has_point(aux.to_sub)
                    &&& final(region).has_point(sum)
                    &&& sum.cell == final(region)@.len() - 1
                    &&& final(region)@ == old(region)@ + batch_gates(
                        old(region)@.len(),
                        self.bits(),
                        window_size as nat,
                        pairs@,
                        aux,
                    )
                    &&& final(region)@.len() == old(region)@.len() + batch_rows(
                        self.bits(),
                        window_size as nat,
                        pairs@.len(),
                    )
                    &&& multiplies(
                        old(region)@,
                        final(region)@,
                        sum,
                        pairs@,
                        aux,
                        blind_factor(self.bits(), window_size as nat, pairs@.len()),
                        self.bits(),
                    )
                },
                Err(e) => {
                    &&& final(region)@ == old(region)@
                    &&& match self.aux(window_size, pairs@.len() as usize) {
                        None => e == Error::Synthesis,
                        Some(aux) => {
                            &&& e == Error::UnknownCell
                            &&& !(pairs_known(old(region)@, pairs@) && old(region).has_point(
                                aux.to_add,
                            ) && old(region).has_point(aux.to_sub))
                        },
                    }
                },
            },
    {
        let ghost before = region@;
        let ghost width = self.bits();
        let ghost window = window_size as nat;
        let ghost m = window_count(width, window);
        proof {
            lemma_extends_self(before);
            lemma_padding(width, window);
        }
        let aux = self.get_mul_aux(window_size, pairs.len())?;
        if !region.contains_point(&aux.to_add) || !region.contains_point(&aux.to_sub)
            || !self.contains_pairs(region, &pairs) {
            return Err(Error::UnknownCell);
        }
        let (windowed_scalars, tables) = self.prepare_all(region, &pairs, &aux, window_size)?;
        let ghost sweep = batch_sweep(
            region@,
            pairs@,
            aux.to_add,
            windowed_scalars@,
            tables@,
            window,
            m,
        );
        proof {
            lemma_extends_self(sweep.base);
        }
        let acc = self.sweep_all(region, &windowed_scalars, &tables, window_size, Ghost(sweep))?;
        let ghost swept = region@;
        let sum = self.unblind(region, &acc, &aux.to_sub, Ghost(sweep))?;
        proof {
            let last = region@;
            lemma_batch_gates(
                before,
                sweep.base,
                swept,
                last,
                width,
                window,
                pairs@,
                aux,
                sweep.scalars,
                sweep.tables,
                acc,
            );
            lemma_extends_chain(sweep.base, swept, last);
            lemma_extends_chain(before, sweep.base, last);
            lemma_sweep_multiplies(sweep, before, last, sum, pairs@, aux, width);
        }
        Ok(sum)
    }

}

} // verus!
