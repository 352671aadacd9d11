//! The table of one point: the multiples that a window can ask for, each on top of the
//! root of the table.

use crate::curve::Curve;
use crate::ecc::Table;
use crate::ecc::general_ecc::GeneralEccChip;
use crate::ecc::general_ecc::accumulator::{
    lemma_root_first, lemma_root_known, lemma_root_next, lemma_root_persists, lemma_table_persists,
    lemma_table_ready, points_known, root_ready, table_ready,
};
use crate::ecc::general_ecc::layout::{batch_root, batch_table, tables_gates};
use crate::ecc::general_ecc::scalar_mul::pairs_known;
use crate::error::Error;
use crate::region::{
    extends, lemma_extends_chain, lemma_extends_push, lemma_extends_self, lemma_persist,
    lemma_point_on_curve, names_point, point_at, point_of, point_value, AssignedInteger,
    AssignedPoint, Gate, Region, Witness,
};
use vstd::arithmetic::power2::{lemma_pow2_strictly_increases, lemma_pow2_unfold, pow2};
use vstd::prelude::*;

verus! {

/// The rows that a table of `2^window` entries takes to build, and that a selection among
/// its entries takes: one for each entry but one.
pub open spec fn table_rows(window: nat) -> nat {
    (pow2(window) - 1) as nat
}

/// The entries of the table over `root` that is recorded in the rows from `first` on: the
/// root, and then the points of those rows.
pub open spec fn table_entries(first: nat, root: AssignedPoint, window: nat) -> Seq<AssignedPoint> {
    Seq::new(
        pow2(window),
        |i: int|
            if i == 0 {
                root
            } else {
                point_at((first + i - 1) as nat)
            },
    )
}

/// The additions that build the table of `point` over `root` in the rows from `first`
/// on: each adds `point` to the entry before.
pub open spec fn table_gates(first: nat, root: AssignedPoint, point: AssignedPoint, window: nat) -> Seq<
    Gate,
> {
    Seq::new(
        table_rows(window),
        |i: int| Gate::Add { a: table_entries(first, root, window)[i], b: point },
    )
}

/// `table` starts with `aux`, and each further entry is the sum of the entry before it
/// and `point`, recorded in the rows from `first` on, one after the other.
pub open spec fn is_incremental_table(
    gates: Seq<Gate>,
    first: nat,
    aux: AssignedPoint,
    point: AssignedPoint,
    table: Seq<AssignedPoint>,
) -> bool {
    &&& table.len() >= 1
    &&& table[0] == aux
    &&& first + table.len() - 1 <= gates.len()
    &&& forall|i: int| 1 <= i < table.len() ==> (#[trigger] table[i]).cell == first + i - 1
    &&& forall|i: int|
        0 <= i < table.len() - 1 ==> #[trigger] gates[first + i] == (Gate::Add {
            a: table[i],
            b: point,
        })
}

/// Entry `i` of an incremental table holds the root of the table plus `i` times the point
/// that the table was built for.
pub proof fn lemma_table_entry(
    gates: Seq<Gate>,
    first: nat,
    aux: AssignedPoint,
    point: AssignedPoint,
    table: Seq<AssignedPoint>,
    curve: Curve,
    witness: Witness,
    i: int,
)
    requires
        is_incremental_table(gates, first, aux, point, table),
        aux.cell < first,
        point.cell < first,
        curve.is_group(),
        witness.fits(curve),
        0 <= i < table.len(),
    ensures
        point_of(gates, curve, witness, table[i]) == curve.plus(
            point_of(gates, curve, witness, aux),
            curve.scale(i as nat, point_of(gates, curve, witness, point)),
        ),
    decreases i,
{
    let root = point_of(gates, curve, witness, aux);
    let step = point_of(gates, curve, witness, point);
    lemma_point_on_curve(gates, curve, witness, aux.cell as int);
    lemma_point_on_curve(gates, curve, witness, point.cell as int);
    if i == 0 {
        curve.lemma_plus_infinity(root);
    } else {
        lemma_table_entry(gates, first, aux, point, table, curve, witness, i - 1);
        let row = first + i - 1;
        assert(gates[first + (i - 1)] == (Gate::Add { a: table[i - 1], b: point }));
        assert(table[i].cell == row);
        assert(table[i - 1].cell < row);
        assert(point_value(gates, curve, witness, row) == curve.plus(
            point_of(gates, curve, witness, table[i - 1]),
            step,
        ));
        curve.lemma_scale_closed((i - 1) as nat, step);
        curve.lemma_associates(root, curve.scale((i - 1) as nat, step), step);
    }
}

/// `2^window_size`, the number of entries of a table.
fn table_size(window_size: usize) -> (size: usize)
    requires
        pow2(window_size as nat) <= usize::MAX,
    ensures
        size == pow2(window_size as nat),
{
    let mut size: usize = 1;
    let mut i: usize = 0;
    proof {
        vstd::arithmetic::power2::lemma2_to64();
    }
    while i < window_size
        invariant
            i <= window_size,
            size == pow2(i as nat),
            pow2(window_size as nat) <= usize::MAX,
        decreases window_size - i,
    {
        proof {
            lemma_pow2_unfold((i + 1) as nat);
            if i + 1 < window_size {
                lemma_pow2_strictly_increases((i + 1) as nat, window_size as nat);
            }
        }
        size = size * 2;
        i = i + 1;
    }
    size
}

impl GeneralEccChip {
    /// Builds the table of `point` over the root `aux`: `2^window_size` entries, each
    /// the sum of the entry before it and `point`. Only additions are recorded, one for
    /// each entry but the first.
    pub fn make_incremental_table(
        &self,
        region: &mut Region,
        aux: &AssignedPoint,
        point: &AssignedPoint,
        window_size: usize,
    ) -> (result: Result<Table, Error>)
        requires
            pow2(window_size as nat) <= usize::MAX,
        ensures
            extends(final(region)@, old(region)@),
            old(region).wf() ==> final(region).wf(),
            match result {
                Ok(table) => {
                    &&& old(region).has_point(*aux) && old(region).has_point(*point)
                    &&& table@.len() == pow2(window_size as nat)
                    &&& final(region)@.len() == old(region)@.len() + pow2(window_size as nat) - 1
                    &&& table@ == table_entries(old(region)@.len(), *aux, window_size as nat)
                    &&& final(region)@ == old(region)@ + table_gates(
                        old(region)@.len(),
                        *aux,
                        *point,
                        window_size as nat,
                    )
                    &&& points_known(final(region)@, table@)
                    &&& forall|curve: Curve, witness: Witness, i: int|
                        curve.is_group() && witness.fits(curve) && 0 <= i < table@.len()
                            ==> #[trigger] point_of(final(region)@, curve, witness, table@[i])
                            == curve.plus(
                            point_of(old(region)@, curve, witness, *aux),
                            curve.scale(i as nat, point_of(old(region)@, curve, witness, *point)),
                        )
                },
                Err(e) => {
                    &&& !(old(region).has_point(*aux) && old(region).has_point(*point))
                    &&& e == Error::UnknownCell
                    &&& final(region)@ == old(region)@
                },
            },
    {
        let ghost before = region@;
        let ghost first = region@.len();
        proof {
            lemma_extends_self(before);
        }
        if !region.contains_point(aux) || !region.contains_point(point) {
            return Err(Error::UnknownCell);
        }
        let size = table_size(window_size);
        proof {
            vstd::arithmetic::power2::lemma_pow2_pos(window_size as nat);
        }
        let mut table: Vec<AssignedPoint> = Vec::new();
        table.push(*aux);
        let mut i: usize = 0;
        while i < size - 1
            invariant
                1 <= size,
                i <= size - 1,
                table@.len() == i + 1,
                first == before.len(),
                before == old(region)@,
                region@.len() == first + i,
                extends(region@, before),
                old(region).wf() ==> region.wf(),
                names_point(before, *aux),
                names_point(before, *point),
                is_incremental_table(region@, first, *aux, *point, table@),
                points_known(region@, table@),
            decreases size - 1 - i,
        {
            let ghost current = region@;
            let ghost entries = table@;
            let entry = match region.add(&table[i], point) {
                Ok(entry) => entry,
                Err(e) => {
                    proof {
                        lemma_persist(before, current);
                    }
                    return Err(e);
                },
            };
            table.push(entry);
            proof {
                lemma_extends_push(current, Gate::Add { a: entries[i as int], b: *point });
                lemma_extends_chain(before, current, region@);
                lemma_persist(current, region@);
                assert forall|t: int| 0 <= t < table@.len() - 1 implies #[trigger] region@[first
                    + t] == (Gate::Add { a: table@[t], b: *point }) by {
                    if t < i {
                        assert(current[first + t] == (Gate::Add { a: entries[t], b: *point }));
                    }
                }
                assert forall|t: int| 0 <= t < table@.len() implies names_point(
                    region@,
                    #[trigger] table@[t],
                ) by {
                    if t <= i {
                        assert(names_point(current, entries[t]));
                    }
                }
            }
            i = i + 1;
        }
        proof {
            let after = region@;
            let window = window_size as nat;
            region.lemma_offset_fits();
            lemma_persist(before, after);
            assert(table@ =~= table_entries(first, *aux, window)) by {
                assert forall|t: int| 0 <= t < table@.len() implies table@[t] == table_entries(
                    first,
                    *aux,
                    window,
                )[t] by {
                    if t > 0 {
                        assert(table@[t].cell == first + t - 1);
                    }
                }
            }
            assert(after =~= before + table_gates(first, *aux, *point, window)) by {
                assert forall|t: int| 0 <= t < after.len() implies after[t] == (before
                    + table_gates(first, *aux, *point, window))[t] by {
                    if t < first {
                        assert(after.take(first as int)[t] == after[t]);
                    } else {
                        assert(after[first + (t - first)] == (Gate::Add {
                            a: table@[t - first],
                            b: *point,
                        }));
                    }
                }
            }
            assert forall|curve: Curve, witness: Witness, t: int|
                curve.is_group() && witness.fits(curve) && 0 <= t < table@.len()
                    implies #[trigger] point_of(after, curve, witness, table@[t]) == curve.plus(
                    point_of(before, curve, witness, *aux),
                    curve.scale(t as nat, point_of(before, curve, witness, *point)),
                ) by {
                lemma_table_entry(after, first, *aux, *point, table@, curve, witness, t);
            }
        }
        Ok(Table(table))
    }

    /// Builds the table of `point` over `root`, which holds `2^shift` times the auxiliary
    /// point.
    pub(crate) fn table_over(
        &self,
        region: &mut Region,
        root: &AssignedPoint,
        point: &AssignedPoint,
        window_size: usize,
        Ghost(to_add): Ghost<AssignedPoint>,
        Ghost(shift): Ghost<nat>,
    ) -> (result: Result<Table, Error>)
        requires
            pow2(window_size as nat) <= usize::MAX,
            root_ready(old(region)@, *root, to_add, shift),
            names_point(old(region)@, *point),
        ensures
            extends(final(region)@, old(region)@),
            result matches Ok(table) ==> table@ == table_entries(
                old(region)@.len(),
                *root,
                window_size as nat,
            ) && final(region)@ == old(region)@ + table_gates(
                old(region)@.len(),
                *root,
                *point,
                window_size as nat,
            ),
            final(region)@.len() == old(region)@.len() + table_rows(window_size as nat),
            old(region).wf() ==> final(region).wf(),
            result is Ok,
            result matches Ok(table) ==> table_ready(
                final(region)@,
                table@,
                *point,
                to_add,
                shift,
                window_size as nat,
            ),
    {
        let ghost before = region@;
        proof {
            lemma_root_known(before, *root, to_add, shift);
        }
        let table = self.make_incremental_table(region, root, point, window_size)?;
        proof {
            lemma_table_ready(
                before,
                region@,
                table@,
                *root,
                *point,
                to_add,
                shift,
                window_size as nat,
            );
        }
        Ok(table)
    }

    /// Builds the table of `point` over `root` and, unless the table is the last one,
    /// doubles the root for the table that follows.
    pub(crate) fn next_table(
        &self,
        region: &mut Region,
        root: &AssignedPoint,
        point: &AssignedPoint,
        last: bool,
        window_size: usize,
        Ghost(to_add): Ghost<AssignedPoint>,
        Ghost(shift): Ghost<nat>,
    ) -> (result: Result<(Table, AssignedPoint), Error>)
        requires
            pow2(window_size as nat) <= usize::MAX,
            root_ready(old(region)@, *root, to_add, shift),
            names_point(old(region)@, *point),
        ensures
            extends(final(region)@, old(region)@),
            old(region).wf() ==> final(region).wf(),
            result is Ok,
            result matches Ok((table, next)) ==> {
                &&& table@ == table_entries(old(region)@.len(), *root, window_size as nat)
                &&& table_ready(final(region)@, table@, *point, to_add, shift, window_size as nat)
                &&& final(region)@ == old(region)@ + table_gates(
                    old(region)@.len(),
                    *root,
                    *point,
                    window_size as nat,
                ) + if last {
                    Seq::<Gate>::empty()
                } else {
                    seq![Gate::Double { a: *root }]
                }
                &&& final(region)@.len() == old(region)@.len() + table_rows(window_size as nat)
                    + if last {
                    0int
                } else {
                    1int
                }
                &&& !last ==> next == point_at(
                    old(region)@.len() + table_rows(window_size as nat),
                ) && root_ready(final(region)@, next, to_add, shift + 1)
            },
    {
        let ghost before = region@;
        let ghost window = window_size as nat;
        let table = self.table_over(region, root, point, window_size, Ghost(to_add), Ghost(shift))?;
        let ghost built = region@;
        proof {
            lemma_root_persists(before, built, *root, to_add, shift);
            lemma_root_known(built, *root, to_add, shift);
            lemma_persist(before, built);
            region.lemma_offset_fits();
        }
        if last {
            proof {
                assert(built + Seq::<Gate>::empty() =~= built);
            }
            Ok((table, *root))
        } else {
            proof {
                lemma_root_next(built, *root, to_add, shift);
                lemma_extends_push(built, Gate::Double { a: *root });
            }
            let next = region.double(root)?;
            proof {
                lemma_extends_chain(before, built, region@);
                lemma_table_persists(built, region@, table@, *point, to_add, shift, window);
                assert(region@ =~= before + table_gates(before.len(), *root, *point, window)
                    + seq![Gate::Double { a: *root }]);
            }
            Ok((table, next))
        }
    }

    /// Builds the table of every point, each over a root of its own: the auxiliary point
    /// for the first table, and for each further table the double of the root before.
    pub(crate) fn tables_for(
        &self,
        region: &mut Region,
        to_add: &AssignedPoint,
        pairs: &Vec<(AssignedPoint, AssignedInteger)>,
        window_size: usize,
    ) -> (result: Result<Vec<Table>, Error>)
        requires
            pow2(window_size as nat) <= usize::MAX,
            names_point(old(region)@, *to_add),
            pairs_known(old(region)@, pairs@),
            pairs@.len() > 0,
        ensures
            extends(final(region)@, old(region)@),
            final(region)@.len() == old(region)@.len() + pairs@.len() * table_rows(
                window_size as nat,
            ) + pairs@.len() - 1,
            old(region).wf() ==> final(region).wf(),
            result is Ok,
            result matches Ok(tables) ==> {
                &&& final(region)@ == old(region)@ + tables_gates(
                    old(region)@.len(),
                    *to_add,
                    pairs@,
                    window_size as nat,
                    0,
                )
                &&& forall|t: int|
                    0 <= t < pairs@.len() ==> (#[trigger] tables@[t])@ == batch_table(
                        old(region)@.len(),
                        *to_add,
                        window_size as nat,
                        t as nat,
                    )
                &&& tables@.len() == pairs@.len()
                &&& forall|t: int|
                    0 <= t < pairs@.len() ==> table_ready(
                        final(region)@,
                        (#[trigger] tables@[t])@,
                        pairs@[t].0,
                        *to_add,
                        t as nat,
                        window_size as nat,
                    )
            },
    {
        let ghost before = region@;
        let ghost window = window_size as nat;
        let ghost rows = table_rows(window);
        let ghost mut done_gates: Seq<Gate> = Seq::empty();
        proof {
            lemma_extends_self(before);
            lemma_root_first(before, *to_add);
            assert(0 * (rows + 1) == 0);
            assert(before + done_gates =~= before);
            assert(done_gates + tables_gates(before.len(), *to_add, pairs@, window, 0)
                =~= tables_gates(before.len(), *to_add, pairs@, window, 0));
        }
        let number_of_pairs = pairs.len();
        let mut binary_aux = *to_add;
        let mut tables: Vec<Table> = Vec::new();
        let mut t: usize = 0;
        while t < number_of_pairs
            invariant
                t <= number_of_pairs,
                number_of_pairs == pairs@.len(),
                tables@.len() == t,
                window == window_size,
                rows == table_rows(window),
                pow2(window_size as nat) <= usize::MAX,
                before == old(region)@,
                region@ == before + done_gates,
                done_gates.len() == if t < number_of_pairs {
                    t * (rows + 1)
                } else {
                    t * (rows + 1) - 1
                },
                tables_gates(before.len(), *to_add, pairs@, window, 0) == done_gates + tables_gates(
                    before.len(),
                    *to_add,
                    pairs@,
                    window,
                    t as nat,
                ),
                t < number_of_pairs ==> binary_aux == batch_root(
                    before.len(),
                    *to_add,
                    window,
                    t as nat,
                ) && root_ready(region@, binary_aux, *to_add, t as nat),
                names_point(before, *to_add),
                pairs_known(before, pairs@),
                extends(region@, before),
                old(region).wf() ==> region.wf(),
                forall|s: int|
                    0 <= s < t ==> (#[trigger] tables@[s])@ == batch_table(
                        before.len(),
                        *to_add,
                        window,
                        s as nat,
                    ) && table_ready(region@, tables@[s]@, pairs@[s].0, *to_add, s as nat, window),
            decreases number_of_pairs - t,
        {
            let ghost current = region@;
            let ghost done = tables@;
            let ghost root = binary_aux;
            proof {
                lemma_persist(before, current);
                assert(names_point(before, pairs@[t as int].0));
            }
            let last = t == number_of_pairs - 1;
            let (table, next) = self.next_table(
                region,
                &binary_aux,
                &pairs[t].0,
                last,
                window_size,
                Ghost(*to_add),
                Ghost(t as nat),
            )?;
            binary_aux = next;
            tables.push(table);
            proof {
                let after = region@;
                lemma_extends_chain(before, current, after);
                assert(t * (rows + 1) >= 0) by (nonlinear_arith)
                    requires
                        t >= 0,
                        rows >= 0,
                ;
                assert((t + 1) * (rows + 1) == t * (rows + 1) + rows + 1) by (nonlinear_arith);
                let built = table_gates(current.len(), root, pairs@[t as int].0, window);
                let doubling = if t + 1 < pairs@.len() {
                    seq![Gate::Double { a: root }]
                } else {
                    Seq::<Gate>::empty()
                };
                let rest = tables_gates(before.len(), *to_add, pairs@, window, (t + 1) as nat);
                assert(tables_gates(before.len(), *to_add, pairs@, window, t as nat) == built
                    + doubling + rest);
                assert(after =~= before + (done_gates + built + doubling));
                assert(done_gates + (built + doubling + rest) =~= (done_gates + built + doubling)
                    + rest);
                done_gates = done_gates + built + doubling;
                assert forall|s: int| 0 <= s < t + 1 implies (#[trigger] tables@[s])@
                    == batch_table(before.len(), *to_add, window, s as nat) && table_ready(
                    after,
                    tables@[s]@,
                    pairs@[s].0,
                    *to_add,
                    s as nat,
                    window,
                ) by {
                    assert(names_point(before, pairs@[s].0));
                    if s < t {
                        assert(tables@[s] == done[s]);
                        lemma_table_persists(
                            current,
                            after,
                            done[s]@,
                            pairs@[s].0,
                            *to_add,
                            s as nat,
                            window,
                        );
                    }
                }
            }
            t = t + 1;
        }
        proof {
            assert(done_gates + Seq::<Gate>::empty() =~= done_gates);
            assert(number_of_pairs * (rows + 1) == number_of_pairs * rows + number_of_pairs)
                by (nonlinear_arith);
        }
        Ok(tables)
    }
}

} // verus!
