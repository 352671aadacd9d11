//! The steps that a sweep over the windows is made of, and the sweeps.

use crate::ecc::{Selector, Table, Windowed};
use crate::ecc::general_ecc::GeneralEccChip;
use crate::ecc::general_ecc::accumulator::Sweep;
use crate::ecc::general_ecc::layout::{
    adding_gates, batch_sweep_gates, batch_sweep_result, batch_sweep_rows, ladder_gates,
    lemma_sweep_gates, pick_add_gates, pick_ladder_gates, sweep_gates, sweep_result, windows_gates,
};
use crate::ecc::general_ecc::selection::{selected, selection_gates};
use crate::ecc::general_ecc::table::table_rows;
use crate::error::Error;
use crate::region::{
    extends, lemma_extends_chain, lemma_extends_push, lemma_extends_self, lemma_persist,
    names_point, point_at, AssignedPoint, Gate, Region,
};
use vstd::prelude::*;

verus! {

impl GeneralEccChip {
    /// Picks the entry that begins the accumulator: the one that the first window of
    /// the first scalar addresses.
    pub(crate) fn pick_first(
        &self,
        region: &mut Region,
        selector: &Selector,
        table: &Table,
        Ghost(sweep): Ghost<Sweep>,
    ) -> (result: Result<AssignedPoint, Error>)
        requires
            sweep.ready(),
            extends(old(region)@, sweep.base),
            0 < sweep.pairs(),
            0 < sweep.windows,
            selector@ == sweep.scalars[0][0],
            table@ == sweep.tables[0],
        ensures
            extends(final(region)@, old(region)@),
            result matches Ok(acc) ==> acc == selected(old(region)@.len(), selector@, table@)
                && final(region)@ == old(region)@ + selection_gates(
                old(region)@.len(),
                selector@,
                table@,
            ),
            final(region)@.len() == old(region)@.len() + table_rows(sweep.window),
            old(region).wf() ==> final(region).wf(),
            result is Ok,
            result matches Ok(acc) ==> sweep.holds(final(region)@, acc, 0, 1),
    {
        let ghost before = region@;
        proof {
            reveal(Sweep::holds);
            reveal(Sweep::picks);
        }
        proof {
            sweep.lemma_known_later(before, 0, 0);
        }
        let picked = self.select_multi(region, selector, table)?;
        proof {
            assert(sweep.picks(before, region@, picked, 0, 0));
            sweep.lemma_first(before, region@, picked);
        }
        Ok(picked)
    }

    /// Picks the entry that window `i` of scalar `j` addresses and adds it to the
    /// accumulator.
    pub(crate) fn pick_and_add(
        &self,
        region: &mut Region,
        acc: &AssignedPoint,
        selector: &Selector,
        table: &Table,
        Ghost(sweep): Ghost<Sweep>,
        Ghost(i): Ghost<nat>,
        Ghost(j): Ghost<nat>,
    ) -> (result: Result<AssignedPoint, Error>)
        requires
            sweep.ready(),
            extends(old(region)@, sweep.base),
            sweep.holds(old(region)@, *acc, i, j),
            j < sweep.pairs(),
            i < sweep.windows,
            selector@ == sweep.scalars[j as int][i as int],
            table@ == sweep.tables[j as int],
        ensures
            extends(final(region)@, old(region)@),
            result matches Ok(sum) ==> sum == point_at(
                old(region)@.len() + table_rows(sweep.window),
            ) && final(region)@ == old(region)@ + pick_add_gates(
                old(region)@.len(),
                *acc,
                selector@,
                table@,
            ),
            final(region)@.len() == old(region)@.len() + table_rows(sweep.window) + 1,
            old(region).wf() ==> final(region).wf(),
            result is Ok,
            result matches Ok(sum) ==> sweep.holds(final(region)@, sum, i, j + 1),
    {
        let ghost before = region@;
        proof {
            reveal(Sweep::holds);
            reveal(Sweep::picks);
        }
        proof {
            sweep.lemma_known_later(before, i as int, j as int);
        }
        let picked = self.select_multi(region, selector, table)?;
        let ghost middle = region@;
        proof {
            assert(sweep.picks(before, middle, picked, i as int, j as int));
            region.lemma_offset_fits();
            sweep.lemma_add(before, middle, *acc, picked, i, j);
            crate::region::lemma_persist(before, middle);
        }
        let sum = region.add(acc, &picked)?;
        proof {
            lemma_extends_push(middle, Gate::Add { a: *acc, b: picked });
            lemma_extends_chain(before, middle, region@);
            assert(region@ =~= before + pick_add_gates(before.len(), *acc, selector@, table@));
        }
        Ok(sum)
    }

    /// Shifts the accumulator by one window, when window `i` is added for every pair.
    pub(crate) fn shift(
        &self,
        region: &mut Region,
        acc: &AssignedPoint,
        window_size: usize,
        Ghost(sweep): Ghost<Sweep>,
        Ghost(i): Ghost<nat>,
    ) -> (result: Result<AssignedPoint, Error>)
        requires
            sweep.holds(old(region)@, *acc, i, sweep.pairs()),
            window_size == sweep.window,
        ensures
            extends(final(region)@, old(region)@),
            result matches Ok(shifted) ==> shifted == point_at(old(region)@.len()) && final(region)@
                == old(region)@.push(Gate::DoubleN { a: *acc, n: window_size }),
            final(region)@.len() == old(region)@.len() + 1,
            old(region).wf() ==> final(region).wf(),
            result is Ok,
            result matches Ok(shifted) ==> sweep.holds(final(region)@, shifted, i + 1, 0),
    {
        let ghost before = region@;
        proof {
            reveal(Sweep::holds);
        }
        proof {
            region.lemma_offset_fits();
            sweep.lemma_double(before, *acc, i, window_size);
            lemma_extends_push(before, Gate::DoubleN { a: *acc, n: window_size });
        }
        let shifted = region.double_n(acc, window_size)?;
        Ok(shifted)
    }

    /// With one pair: shifts the accumulator by one window and adds the entry that
    /// window `i + 1` addresses, the last doubling being made as the entry is added.
    pub(crate) fn pick_and_ladder(
        &self,
        region: &mut Region,
        acc: &AssignedPoint,
        selector: &Selector,
        table: &Table,
        window_size: usize,
        Ghost(sweep): Ghost<Sweep>,
        Ghost(i): Ghost<nat>,
    ) -> (result: Result<AssignedPoint, Error>)
        requires
            sweep.ready(),
            sweep.pairs() == 1,
            extends(old(region)@, sweep.base),
            sweep.holds(old(region)@, *acc, i, 1),
            0 < window_size,
            window_size == sweep.window,
            i + 1 < sweep.windows,
            selector@ == sweep.scalars[0][(i + 1) as int],
            table@ == sweep.tables[0],
        ensures
            extends(final(region)@, old(region)@),
            result matches Ok(sum) ==> sum == point_at(
                old(region)@.len() + table_rows(sweep.window) + 1,
            ) && final(region)@ == old(region)@ + pick_ladder_gates(
                old(region)@.len(),
                *acc,
                selector@,
                table@,
                sweep.window,
            ),
            final(region)@.len() == old(region)@.len() + table_rows(sweep.window) + 2,
            old(region).wf() ==> final(region).wf(),
            result is Ok,
            result matches Ok(sum) ==> sweep.holds(final(region)@, sum, i + 1, 1),
    {
        let ghost before = region@;
        proof {
            reveal(Sweep::holds);
            reveal(Sweep::picks);
        }
        proof {
            region.lemma_offset_fits();
            lemma_extends_push(before, Gate::DoubleN { a: *acc, n: (window_size - 1) as usize });
        }
        let half = region.double_n(acc, window_size - 1)?;
        let ghost doubled = region@;
        proof {
            lemma_extends_chain(sweep.base, before, doubled);
            sweep.lemma_known_later(doubled, (i + 1) as int, 0);
        }
        let picked = self.select_multi(region, selector, table)?;
        let ghost middle = region@;
        proof {
            assert(sweep.picks(doubled, middle, picked, (i + 1) as int, 0));
            region.lemma_offset_fits();
            sweep.lemma_ladder(before, middle, *acc, picked, i, (window_size - 1) as usize);
            crate::region::lemma_persist(doubled, middle);
        }
        let sum = region.ladder(&half, &picked)?;
        proof {
            lemma_extends_push(middle, Gate::Ladder { acc: half, addend: picked });
            lemma_extends_chain(before, doubled, middle);
            lemma_extends_chain(before, middle, region@);
            assert(region@ =~= before + pick_ladder_gates(
                before.len(),
                *acc,
                selector@,
                table@,
                sweep.window,
            ));
        }
        Ok(sum)
    }

    /// Adds `to_sub` to the accumulator, when the last window is added for every pair.
    pub(crate) fn unblind(
        &self,
        region: &mut Region,
        acc: &AssignedPoint,
        to_sub: &AssignedPoint,
        Ghost(sweep): Ghost<Sweep>,
    ) -> (result: Result<AssignedPoint, Error>)
        requires
            sweep.windows >= 1,
            extends(old(region)@, sweep.base),
            names_point(sweep.base, *to_sub),
            sweep.holds(old(region)@, *acc, (sweep.windows - 1) as nat, sweep.pairs()),
        ensures
            extends(final(region)@, old(region)@),
            result matches Ok(sum) ==> final(region)@ == old(region)@.push(
                Gate::Add { a: *acc, b: *to_sub },
            ),
            final(region)@.len() == old(region)@.len() + 1,
            old(region).wf() ==> final(region).wf(),
            result is Ok,
            result matches Ok(sum) ==> {
                &&& sum.cell == old(region)@.len()
                &&& names_point(final(region)@, sum)
                &&& sweep.unblinded(final(region)@, sum, *to_sub)
            },
    {
        let ghost before = region@;
        proof {
            reveal(Sweep::holds);
        }
        proof {
            region.lemma_offset_fits();
            crate::region::lemma_persist(sweep.base, before);
            sweep.lemma_unblind(before, *acc, *to_sub);
            lemma_extends_push(before, Gate::Add { a: *acc, b: *to_sub });
        }
        let sum = region.add(acc, to_sub)?;
        Ok(sum)
    }

    /// Brings the windows from the third on of one scalar in, each by `pick_and_ladder`.
    pub(crate) fn ladder_on(
        &self,
        region: &mut Region,
        acc: &AssignedPoint,
        windowed: &Windowed,
        table: &Table,
        window_size: usize,
        Ghost(sweep): Ghost<Sweep>,
    ) -> (result: Result<AssignedPoint, Error>)
        requires
            sweep.ready(),
            sweep.pairs() == 1,
            extends(old(region)@, sweep.base),
            0 < window_size,
            window_size == sweep.window,
            2 <= sweep.windows,
            sweep.scalars[0] == windowed@,
            sweep.tables[0] == table@,
            sweep.holds(old(region)@, *acc, 1, 1),
        ensures
            extends(final(region)@, old(region)@),
            old(region).wf() ==> final(region).wf(),
            result is Ok,
            result matches Ok(sum) ==> {
                &&& sweep.holds(final(region)@, sum, (sweep.windows - 1) as nat, 1)
                &&& final(region)@ == old(region)@ + ladder_gates(
                    old(region)@.len(),
                    *acc,
                    windowed@,
                    table@,
                    sweep.window,
                    2,
                )
                &&& final(region)@.len() == old(region)@.len() + (sweep.windows - 2) * (table_rows(
                    sweep.window,
                ) + 2)
                &&& sum == if sweep.windows > 2 {
                    point_at((final(region)@.len() - 1) as nat)
                } else {
                    *acc
                }
            },
    {
        let ghost before = region@;
        let ghost first = before.len();
        let ghost given = *acc;
        let ghost window = sweep.window;
        let ghost rows = table_rows(window);
        let ghost step = rows + 2;
        let ghost m = sweep.windows;
        let ghost mut done: Seq<Gate> = Seq::empty();
        proof {
            sweep.lemma_ready_windows(0);
            lemma_extends_self(before);
            assert(0 * step == 0);
            assert(before + done =~= before);
            assert(done + ladder_gates(first, given, windowed@, table@, window, 2)
                =~= ladder_gates(first, given, windowed@, table@, window, 2));
        }
        let number_of_windows = windowed.0.len();
        let mut acc = *acc;
        let mut i: usize = 2;
        while i < number_of_windows
            invariant
                2 <= i <= number_of_windows,
                number_of_windows == m,
                number_of_windows == windowed.0@.len(),
                0 < window_size,
                window == window_size,
                rows == table_rows(window),
                step == rows + 2,
                first == before.len(),
                region@ == before + done,
                done.len() == (i - 2) * step,
                acc == if 2 < i {
                    point_at((first + done.len() - 1) as nat)
                } else {
                    given
                },
                ladder_gates(first, given, windowed@, table@, window, 2) == done + ladder_gates(
                    first + done.len(),
                    acc,
                    windowed@,
                    table@,
                    window,
                    i as nat,
                ),
                sweep.ready(),
                sweep.pairs() == 1,
                sweep.window == window,
                sweep.windows == m,
                sweep.scalars[0] == windowed@,
                sweep.tables[0] == table@,
                extends(region@, sweep.base),
                extends(region@, before),
                old(region).wf() ==> region.wf(),
                sweep.holds(region@, acc, (i - 1) as nat, 1),
            decreases number_of_windows - i,
        {
            let ghost current = region@;
            let ghost turn = pick_ladder_gates(
                current.len(),
                acc,
                windowed@[i as int],
                table@,
                window,
            );
            let ghost rest = ladder_gates(
                (current.len() + rows + 2) as nat,
                point_at(current.len() + rows + 1),
                windowed@,
                table@,
                window,
                (i + 1) as nat,
            );
            proof {
                assert(ladder_gates(current.len(), acc, windowed@, table@, window, i as nat)
                    == turn + rest);
            }
            acc = self.pick_and_ladder(
                region,
                &acc,
                &windowed.0[i],
                table,
                window_size,
                Ghost(sweep),
                Ghost((i - 1) as nat),
            )?;
            proof {
                lemma_extends_chain(sweep.base, current, region@);
                lemma_extends_chain(before, current, region@);
                assert((i + 1 - 2) * step == (i - 2) * step + step) by (nonlinear_arith);
                assert(done + (turn + rest) =~= (done + turn) + rest);
                assert(before + done + turn =~= before + (done + turn));
                done = done + turn;
            }
            i = i + 1;
        }
        proof {
            assert(done + Seq::<Gate>::empty() =~= done);
        }
        Ok(acc)
    }

    /// Sweeps over the windows of one scalar: the entry of the first window begins the
    /// accumulator, the second window is brought in by `window_size` doublings and a
    /// plain addition, and each further one by `pick_and_ladder`.
    pub(crate) fn sweep_one(
        &self,
        region: &mut Region,
        windowed: &Windowed,
        table: &Table,
        window_size: usize,
        Ghost(sweep): Ghost<Sweep>,
    ) -> (result: Result<AssignedPoint, Error>)
        requires
            sweep.ready(),
            sweep.pairs() == 1,
            extends(old(region)@, sweep.base),
            0 < window_size,
            window_size == sweep.window,
            0 < sweep.windows,
            sweep.scalars[0] == windowed@,
            sweep.tables[0] == table@,
        ensures
            extends(final(region)@, old(region)@),
            old(region).wf() ==> final(region).wf(),
            result is Ok,
            result matches Ok(acc) ==> {
                &&& sweep.holds(final(region)@, acc, (sweep.windows - 1) as nat, 1)
                &&& acc == sweep_result(old(region)@.len(), windowed@, table@, sweep.window)
                &&& final(region)@ == old(region)@ + sweep_gates(
                    old(region)@.len(),
                    windowed@,
                    table@,
                    sweep.window,
                )
                &&& final(region)@.len() == old(region)@.len() + table_rows(sweep.window) + (
                sweep.windows - 1) * (table_rows(sweep.window) + 2)
            },
    {
        let ghost before = region@;
        let ghost m = sweep.windows;
        proof {
            sweep.lemma_ready_windows(0);
        }
        let number_of_windows = windowed.0.len();
        let picked = self.pick_first(region, &windowed.0[0], table, Ghost(sweep))?;
        let ghost picking = region@;
        if 1 < number_of_windows {
            let shifted = self.shift(region, &picked, window_size, Ghost(sweep), Ghost(0))?;
            let ghost doubled = region@;
            proof {
                lemma_extends_chain(sweep.base, before, picking);
                lemma_extends_chain(sweep.base, picking, doubled);
            }
            let added = self.pick_and_add(
                region,
                &shifted,
                &windowed.0[1],
                table,
                Ghost(sweep),
                Ghost(1),
                Ghost(0),
            )?;
            let ghost adding = region@;
            proof {
                lemma_extends_chain(sweep.base, doubled, adding);
            }
            let acc = self.ladder_on(region, &added, windowed, table, window_size, Ghost(sweep))?;
            proof {
                lemma_extends_chain(before, picking, doubled);
                lemma_extends_chain(before, doubled, adding);
                lemma_extends_chain(before, adding, region@);
                lemma_sweep_gates(
                    before,
                    picking,
                    doubled,
                    adding,
                    region@,
                    windowed@,
                    table@,
                    sweep.window,
                );
            }
            Ok(acc)
        } else {
            proof {
                assert(0 * (table_rows(sweep.window) + 2) == 0);
                assert(region@ =~= before + sweep_gates(
                    before.len(),
                    windowed@,
                    table@,
                    sweep.window,
                ));
            }
            Ok(picked)
        }
    }

    /// Brings window `i` in for the pairs from `from` on, each by a selection and a plain
    /// addition.
    pub(crate) fn add_window(
        &self,
        region: &mut Region,
        acc: &AssignedPoint,
        windowed_scalars: &Vec<Windowed>,
        tables: &Vec<Table>,
        i: usize,
        from: usize,
        Ghost(sweep): Ghost<Sweep>,
    ) -> (result: Result<AssignedPoint, Error>)
        requires
            sweep.ready(),
            extends(old(region)@, sweep.base),
            sweep.holds(old(region)@, *acc, i as nat, from as nat),
            from <= sweep.pairs(),
            0 < sweep.pairs(),
            i < sweep.windows,
            windowed_scalars@.len() == sweep.pairs(),
            tables@.len() == sweep.pairs(),
            forall|s: int|
                0 <= s < sweep.pairs() ==> #[trigger] sweep.scalars[s] == windowed_scalars@[s]@,
            forall|s: int| 0 <= s < sweep.pairs() ==> #[trigger] sweep.tables[s] == tables@[s]@,
        ensures
            extends(final(region)@, old(region)@),
            old(region).wf() ==> final(region).wf(),
            result is Ok,
            result matches Ok(sum) ==> {
                &&& sweep.holds(final(region)@, sum, i as nat, sweep.pairs())
                &&& final(region)@ == old(region)@ + adding_gates(
                    old(region)@.len(),
                    *acc,
                    sweep.scalars,
                    sweep.tables,
                    sweep.window,
                    i as int,
                    from as nat,
                )
                &&& final(region)@.len() == old(region)@.len() + (sweep.pairs() - from) * (
                table_rows(sweep.window) + 1)
                &&& sum == if from < sweep.pairs() {
                    point_at((final(region)@.len() - 1) as nat)
                } else {
                    *acc
                }
            },
    {
        let ghost before = region@;
        let ghost first = before.len();
        let ghost given = *acc;
        let ghost rows = table_rows(sweep.window);
        let ghost p = sweep.pairs();
        let ghost mut done: Seq<Gate> = Seq::empty();
        let number_of_pairs = tables.len();
        let mut acc = *acc;
        let mut t: usize = from;
        proof {
            lemma_extends_self(before);
            sweep.lemma_ready_windows(0);
            assert(0 * (rows + 1) == 0);
            assert(before + done =~= before);
            assert(done + adding_gates(
                first,
                given,
                sweep.scalars,
                sweep.tables,
                sweep.window,
                i as int,
                from as nat,
            ) =~= adding_gates(
                first,
                given,
                sweep.scalars,
                sweep.tables,
                sweep.window,
                i as int,
                from as nat,
            ));
        }
        while t < number_of_pairs
            invariant
                from <= t <= number_of_pairs,
                number_of_pairs == p,
                p == sweep.pairs(),
                sweep.scalars.len() == p,
                rows == table_rows(sweep.window),
                first == before.len(),
                before == old(region)@,
                windowed_scalars@.len() == p,
                tables@.len() == p,
                i < sweep.windows,
                sweep.ready(),
                forall|s: int| 0 <= s < p ==> #[trigger] sweep.scalars[s] == windowed_scalars@[s]@,
                forall|s: int| 0 <= s < p ==> #[trigger] sweep.tables[s] == tables@[s]@,
                region@ == before + done,
                done.len() == (t - from) * (rows + 1),
                acc == if from < t {
                    point_at((first + done.len() - 1) as nat)
                } else {
                    given
                },
                adding_gates(
                    first,
                    given,
                    sweep.scalars,
                    sweep.tables,
                    sweep.window,
                    i as int,
                    from as nat,
                ) == done + adding_gates(
                    first + done.len(),
                    acc,
                    sweep.scalars,
                    sweep.tables,
                    sweep.window,
                    i as int,
                    t as nat,
                ),
                extends(region@, sweep.base),
                extends(region@, before),
                old(region).wf() ==> region.wf(),
                sweep.holds(region@, acc, i as nat, t as nat),
            decreases number_of_pairs - t,
        {
            let ghost current = region@;
            let ghost turn = pick_add_gates(
                current.len(),
                acc,
                sweep.scalars[t as int][i as int],
                sweep.tables[t as int],
            );
            let ghost rest = adding_gates(
                current.len() + rows + 1,
                point_at(current.len() + rows),
                sweep.scalars,
                sweep.tables,
                sweep.window,
                i as int,
                (t + 1) as nat,
            );
            proof {
                sweep.lemma_ready_windows(t as int);
                assert(sweep.scalars[t as int] == windowed_scalars@[t as int]@);
                assert(sweep.tables[t as int] == tables@[t as int]@);
                assert(adding_gates(
                    current.len(),
                    acc,
                    sweep.scalars,
                    sweep.tables,
                    sweep.window,
                    i as int,
                    t as nat,
                ) == turn + rest);
            }
            acc = self.pick_and_add(
                region,
                &acc,
                &windowed_scalars[t].0[i],
                &tables[t],
                Ghost(sweep),
                Ghost(i as nat),
                Ghost(t as nat),
            )?;
            proof {
                lemma_extends_chain(sweep.base, current, region@);
                lemma_extends_chain(before, current, region@);
                assert((t + 1 - from) * (rows + 1) == (t - from) * (rows + 1) + (rows + 1))
                    by (nonlinear_arith);
                assert(done + (turn + rest) =~= (done + turn) + rest);
                assert(before + done + turn =~= before + (done + turn));
                done = done + turn;
            }
            t = t + 1;
        }
        proof {
            assert(done + Seq::<Gate>::empty() =~= done);
        }
        Ok(acc)
    }

    /// Shifts the accumulator by one window and brings window `i` in for every pair.
    pub(crate) fn next_window(
        &self,
        region: &mut Region,
        acc: &AssignedPoint,
        windowed_scalars: &Vec<Windowed>,
        tables: &Vec<Table>,
        window_size: usize,
        i: usize,
        Ghost(sweep): Ghost<Sweep>,
    ) -> (result: Result<AssignedPoint, Error>)
        requires
            sweep.ready(),
            extends(old(region)@, sweep.base),
            0 < i < sweep.windows,
            0 < sweep.pairs(),
            sweep.holds(old(region)@, *acc, (i - 1) as nat, sweep.pairs()),
            window_size == sweep.window,
            windowed_scalars@.len() == sweep.pairs(),
            tables@.len() == sweep.pairs(),
            forall|s: int|
                0 <= s < sweep.pairs() ==> #[trigger] sweep.scalars[s] == windowed_scalars@[s]@,
            forall|s: int| 0 <= s < sweep.pairs() ==> #[trigger] sweep.tables[s] == tables@[s]@,
        ensures
            extends(final(region)@, old(region)@),
            old(region).wf() ==> final(region).wf(),
            result is Ok,
            result matches Ok(sum) ==> {
                &&& sweep.holds(final(region)@, sum, i as nat, sweep.pairs())
                &&& final(region)@ == old(region)@ + (seq![
                    Gate::DoubleN { a: *acc, n: window_size },
                ] + adding_gates(
                    old(region)@.len() + 1,
                    point_at(old(region)@.len()),
                    sweep.scalars,
                    sweep.tables,
                    sweep.window,
                    i as int,
                    0,
                ))
                &&& final(region)@.len() == old(region)@.len() + 1 + sweep.pairs() * (table_rows(
                    sweep.window,
                ) + 1)
                &&& sum == point_at((final(region)@.len() - 1) as nat)
            },
    {
        let ghost before = region@;
        let shifted = self.shift(region, acc, window_size, Ghost(sweep), Ghost((i - 1) as nat))?;
        let ghost doubled = region@;
        proof {
            lemma_extends_chain(sweep.base, before, doubled);
        }
        let sum = self.add_window(
            region,
            &shifted,
            windowed_scalars,
            tables,
            i,
            0,
            Ghost(sweep),
        )?;
        proof {
            lemma_extends_chain(before, doubled, region@);
            assert(region@ =~= before + (seq![Gate::DoubleN { a: *acc, n: window_size }]
                + adding_gates(
                before.len() + 1,
                point_at(before.len()),
                sweep.scalars,
                sweep.tables,
                sweep.window,
                i as int,
                0,
            )));
        }
        Ok(sum)
    }

    /// Sweeps over the windows of a batch: the first window is brought in for every
    /// pair, and then each further window after a shift of the accumulator.
    pub(crate) fn sweep_all(
        &self,
        region: &mut Region,
        windowed_scalars: &Vec<Windowed>,
        tables: &Vec<Table>,
        window_size: usize,
        Ghost(sweep): Ghost<Sweep>,
    ) -> (result: Result<AssignedPoint, Error>)
        requires
            sweep.ready(),
            extends(old(region)@, sweep.base),
            0 < sweep.windows,
            0 < sweep.pairs(),
            window_size == sweep.window,
            windowed_scalars@.len() == sweep.pairs(),
            tables@.len() == sweep.pairs(),
            forall|s: int|
                0 <= s < sweep.pairs() ==> #[trigger] sweep.scalars[s] == windowed_scalars@[s]@,
            forall|s: int| 0 <= s < sweep.pairs() ==> #[trigger] sweep.tables[s] == tables@[s]@,
        ensures
            extends(final(region)@, old(region)@),
            old(region).wf() ==> final(region).wf(),
            result is Ok,
            result matches Ok(acc) ==> {
                &&& sweep.holds(final(region)@, acc, (sweep.windows - 1) as nat, sweep.pairs())
                &&& final(region)@ == old(region)@ + batch_sweep_gates(
                    old(region)@.len(),
                    sweep.scalars,
                    sweep.tables,
                    sweep.window,
                    sweep.windows,
                )
                &&& acc == batch_sweep_result(
                    old(region)@.len(),
                    sweep.scalars,
                    sweep.tables,
                    sweep.window,
                    sweep.windows,
                )
                &&& final(region)@.len() == old(region)@.len() + batch_sweep_rows(
                    sweep.window,
                    sweep.windows,
                    sweep.pairs(),
                )
            },
    {
        let ghost before = region@;
        let ghost first = before.len();
        let ghost rows = table_rows(sweep.window);
        let ghost p = sweep.pairs();
        let ghost m = sweep.windows;
        let ghost step = 1 + p * (rows + 1);
        proof {
            sweep.lemma_ready_windows(0);
            assert(sweep.scalars[0] == windowed_scalars@[0]@);
            assert(sweep.tables[0] == tables@[0]@);
        }
        let picked = self.pick_first(region, &windowed_scalars[0].0[0], &tables[0], Ghost(sweep))?;
        let ghost picking = region@;
        proof {
            lemma_extends_chain(sweep.base, before, picking);
        }
        let mut acc = self.add_window(
            region,
            &picked,
            windowed_scalars,
            tables,
            0,
            1,
            Ghost(sweep),
        )?;
        let ghost start = region@;
        let ghost start_acc = acc;
        let ghost mut done: Seq<Gate> = Seq::empty();
        proof {
            lemma_extends_chain(sweep.base, picking, start);
            lemma_extends_chain(before, picking, start);
            assert(0 * step == 0);
            assert(start + done =~= start);
            assert(done + windows_gates(
                start.len(),
                start_acc,
                sweep.scalars,
                sweep.tables,
                sweep.window,
                m,
                1,
            ) =~= windows_gates(
                start.len(),
                start_acc,
                sweep.scalars,
                sweep.tables,
                sweep.window,
                m,
                1,
            ));
        }
        let number_of_windows = windowed_scalars[0].0.len();
        let mut i: usize = 1;
        while i < number_of_windows
            invariant
                1 <= i <= number_of_windows,
                number_of_windows == m,
                m == sweep.windows,
                p == sweep.pairs(),
                0 < p,
                sweep.scalars.len() == p,
                rows == table_rows(sweep.window),
                step == 1 + p * (rows + 1),
                window_size == sweep.window,
                windowed_scalars@.len() == p,
                tables@.len() == p,
                sweep.ready(),
                forall|s: int| 0 <= s < p ==> #[trigger] sweep.scalars[s] == windowed_scalars@[s]@,
                forall|s: int| 0 <= s < p ==> #[trigger] sweep.tables[s] == tables@[s]@,
                region@ == start + done,
                done.len() == (i - 1) * step,
                acc == if 1 < i {
                    point_at((start.len() + done.len() - 1) as nat)
                } else {
                    start_acc
                },
                windows_gates(
                    start.len(),
                    start_acc,
                    sweep.scalars,
                    sweep.tables,
                    sweep.window,
                    m,
                    1,
                ) == done + windows_gates(
                    start.len() + done.len(),
                    acc,
                    sweep.scalars,
                    sweep.tables,
                    sweep.window,
                    m,
                    i as nat,
                ),
                extends(region@, sweep.base),
                extends(region@, before),
                old(region).wf() ==> region.wf(),
                sweep.holds(region@, acc, (i - 1) as nat, p),
            decreases number_of_windows - i,
        {
            let ghost current = region@;
            let ghost turn = seq![Gate::DoubleN { a: acc, n: window_size }] + adding_gates(
                current.len() + 1,
                point_at(current.len()),
                sweep.scalars,
                sweep.tables,
                sweep.window,
                i as int,
                0,
            );
            let ghost rest = windows_gates(
                current.len() + step,
                point_at((current.len() + step - 1) as nat),
                sweep.scalars,
                sweep.tables,
                sweep.window,
                m,
                (i + 1) as nat,
            );
            proof {
                assert(windows_gates(
                    current.len(),
                    acc,
                    sweep.scalars,
                    sweep.tables,
                    sweep.window,
                    m,
                    i as nat,
                ) == turn + rest);
            }
            acc = self.next_window(
                region,
                &acc,
                windowed_scalars,
                tables,
                window_size,
                i,
                Ghost(sweep),
            )?;
            proof {
                lemma_extends_chain(sweep.base, current, region@);
                lemma_extends_chain(before, current, region@);
                assert((i + 1 - 1) * step == (i - 1) * step + step) by (nonlinear_arith);
                assert(done + (turn + rest) =~= (done + turn) + rest);
                assert(start + done + turn =~= start + (done + turn));
                done = done + turn;
            }
            i = i + 1;
        }
        proof {
            assert(done + Seq::<Gate>::empty() =~= done);
            assert(region@ =~= before + batch_sweep_gates(
                first,
                sweep.scalars,
                sweep.tables,
                sweep.window,
                m,
            ));
            assert((p - 1) * (rows + 1) == p * (rows + 1) - (rows + 1)) by (nonlinear_arith);
        }
        Ok(acc)
    }
}

} // verus!
