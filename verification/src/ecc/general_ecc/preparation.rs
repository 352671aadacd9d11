//! What is laid out before a sweep: the windows of the scalars and the tables of the
//! points.

use crate::bits::{padding, window_count};
use crate::ecc::{MulAux, Table, Windowed};
use crate::ecc::general_ecc::GeneralEccChip;
use crate::ecc::general_ecc::accumulator::{
    batch_sweep, lemma_root_first, one_sweep, points_known, table_ready, windows_ready,
};
use crate::ecc::general_ecc::layout::{batch_table, batch_windows, decompositions, tables_gates};
use crate::ecc::general_ecc::scalar_mul::{pairs_known, prepared};
use crate::ecc::general_ecc::table::{table_entries, table_gates, table_rows};
use crate::ecc::general_ecc::windows::{
    chunks, decomposed_bits, lemma_scalar_ready_persists, lemma_scalar_ready_windows, padded_bits,
    scalar_ready, zero_gates,
};
use crate::error::Error;
use crate::region::{
    extends, lemma_extends_chain, lemma_persist, lemma_point_known_later, names_integer,
    names_point, AssignedInteger, AssignedPoint, Gate, Region,
};
use vstd::arithmetic::power2::pow2;
use vstd::prelude::*;

verus! {

impl GeneralEccChip {
    /// Whether every pair names a point and an integer of the region.
    pub(crate) fn contains_pairs(
        &self,
        region: &Region,
        pairs: &Vec<(AssignedPoint, AssignedInteger)>,
    ) -> (known: bool)
        ensures
            known == pairs_known(region@, pairs@),
    {
        let mut t: usize = 0;
        while t < pairs.len()
            invariant
                t <= pairs@.len(),
                pairs_known(region@, pairs@.take(t as int)),
            decreases pairs@.len() - t,
        {
            if !region.contains_point(&pairs[t].0) || !region.contains_integer(&pairs[t].1) {
                proof {
                    assert(!(names_point(region@, pairs@[t as int].0) && names_integer(
                        region@,
                        pairs@[t as int].1,
                    )));
                }
                return false;
            }
            proof {
                let head = pairs@.take(t + 1);
                assert forall|s: int| 0 <= s < head.len() implies names_point(
                    region@,
                    (#[trigger] head[s]).0,
                ) && names_integer(region@, head[s].1) by {
                    if s < t {
                        assert(pairs@.take(t as int)[s] == head[s]);
                    }
                }
            }
            t = t + 1;
        }
        proof {
            assert(pairs@.take(pairs@.len() as int) =~= pairs@);
        }
        true
    }

    /// Lays out what a sweep over the windows of one scalar needs: the windows of the
    /// scalar and the table of the point over the auxiliary point.
    pub(crate) fn prepare_one(
        &self,
        region: &mut Region,
        point: &AssignedPoint,
        scalar: &AssignedInteger,
        aux: &MulAux,
        window_size: usize,
    ) -> (result: Result<(Windowed, Table), Error>)
        requires
            window_size > 0,
            self.bits() > 0,
            pow2(window_size as nat) <= usize::MAX,
            names_point(old(region)@, *point),
            names_integer(old(region)@, *scalar),
            names_point(old(region)@, aux.to_add),
            names_point(old(region)@, aux.to_sub),
        ensures
            extends(final(region)@, old(region)@),
            old(region).wf() ==> final(region).wf(),
            result is Ok,
            result matches Ok((windowed, table)) ==> {
                let window = window_size as nat;
                let windows = window_count(self.bits(), window);
                let zeros = padding(self.bits(), window);
                let first = old(region)@.len();
                &&& one_sweep(
                    final(region)@,
                    *point,
                    aux.to_add,
                    windowed@,
                    table@,
                    window,
                    windows,
                ).ready()
                &&& names_point(final(region)@, aux.to_sub)
                &&& prepared(
                    one_sweep(
                        final(region)@,
                        *point,
                        aux.to_add,
                        windowed@,
                        table@,
                        window,
                        windows,
                    ),
                    old(region)@,
                    seq![(*point, *scalar)],
                    *aux,
                    self.bits(),
                )
                &&& windowed@ == chunks(padded_bits(first, first + 1, self.bits(), window), window)
                &&& table@ == table_entries(first + 1 + zeros, aux.to_add, window)
                &&& final(region)@ == old(region)@.push(
                    Gate::Decompose { integer: *scalar, bits: self.bits() as usize },
                ) + zero_gates(zeros) + table_gates(first + 1 + zeros, aux.to_add, *point, window)
                &&& final(region)@.len() == first + 1 + zeros + table_rows(window)
            },
    {
        let ghost before = region@;
        let ghost width = self.bits();
        let ghost window = window_size as nat;
        let ghost m = window_count(width, window);
        let windowed = self.windows_of(region, scalar, window_size)?;
        let ghost middle = region@;
        proof {
            lemma_point_known_later(before, middle, aux.to_add);
            lemma_point_known_later(before, middle, *point);
            lemma_root_first(middle, aux.to_add);
        }
        let table = self.table_over(
            region,
            &aux.to_add,
            point,
            window_size,
            Ghost(aux.to_add),
            Ghost(0),
        )?;
        proof {
            let base = region@;
            let sweep = one_sweep(base, *point, aux.to_add, windowed@, table@, window, m);
            lemma_extends_chain(before, middle, base);
            lemma_point_known_later(before, base, aux.to_add);
            lemma_point_known_later(before, base, aux.to_sub);
            lemma_point_known_later(before, base, *point);
            lemma_scalar_ready_persists(middle, base, windowed@, *scalar, window, m, width);
            lemma_scalar_ready_windows(base, windowed@, *scalar, window, m, width);
            sweep.lemma_ready();
            reveal(prepared);
        }
        Ok((windowed, table))
    }

    /// Lays out what a sweep over the windows of a batch needs: the windows of every
    /// scalar and the table of every point.
    pub(crate) fn prepare_all(
        &self,
        region: &mut Region,
        pairs: &Vec<(AssignedPoint, AssignedInteger)>,
        aux: &MulAux,
        window_size: usize,
    ) -> (result: Result<(Vec<Windowed>, Vec<Table>), Error>)
        requires
            window_size > 0,
            self.bits() > 0,
            pairs@.len() > 0,
            pow2(window_size as nat) <= usize::MAX,
            pairs_known(old(region)@, pairs@),
            names_point(old(region)@, aux.to_add),
            names_point(old(region)@, aux.to_sub),
        ensures
            extends(final(region)@, old(region)@),
            old(region).wf() ==> final(region).wf(),
            result is Ok,
            result matches Ok((windowed, tables)) ==> {
                let window = window_size as nat;
                let windows = window_count(self.bits(), window);
                let zeros = padding(self.bits(), window);
                let first = old(region)@.len();
                let p = pairs@.len();
                let sweep = batch_sweep(
                    final(region)@,
                    pairs@,
                    aux.to_add,
                    windowed@,
                    tables@,
                    window,
                    windows,
                );
                &&& windowed@.len() == p
                &&& tables@.len() == p
                &&& sweep.ready()
                &&& names_point(final(region)@, aux.to_sub)
                &&& prepared(sweep, old(region)@, pairs@, *aux, self.bits())
                &&& forall|t: int|
                    0 <= t < p ==> #[trigger] sweep.scalars[t] == batch_windows(
                        first,
                        self.bits(),
                        window,
                        p,
                        t as nat,
                    )
                &&& forall|t: int|
                    0 <= t < p ==> #[trigger] sweep.tables[t] == batch_table(
                        first + p + p * zeros,
                        aux.to_add,
                        window,
                        t as nat,
                    )
                &&& final(region)@ == old(region)@ + decompositions(pairs@, self.bits())
                    + zero_gates(p * zeros) + tables_gates(
                    first + p + p * zeros,
                    aux.to_add,
                    pairs@,
                    window,
                    0,
                )
                &&& final(region)@.len() == first + p + p * zeros + p * table_rows(window) + p - 1
            },
    {
        let ghost before = region@;
        let ghost width = self.bits();
        let ghost window = window_size as nat;
        let ghost m = window_count(width, window);
        let ghost zeros = padding(width, window);
        let ghost p = pairs@.len();
        let decomposed = self.decompose_all(region, pairs)?;
        let ghost g1 = region@;
        let windowed = self.window_all(region, &decomposed, window_size, Ghost(pairs@));
        let ghost g2 = region@;
        proof {
            lemma_extends_chain(before, g1, g2);
            lemma_point_known_later(before, g2, aux.to_add);
            assert(p * zeros >= 0) by (nonlinear_arith)
                requires
                    p >= 0,
                    zeros >= 0,
            ;
            assert(pairs_known(g2, pairs@)) by {
                lemma_persist(before, g2);
                assert forall|s: int| 0 <= s < pairs@.len() implies names_point(
                    g2,
                    (#[trigger] pairs@[s]).0,
                ) && names_integer(g2, pairs@[s].1) by {
                    assert(names_point(before, pairs@[s].0));
                }
            }
        }
        let tables = self.tables_for(region, &aux.to_add, pairs, window_size)?;
        proof {
            let base = region@;
            let sweep = batch_sweep(base, pairs@, aux.to_add, windowed@, tables@, window, m);
            lemma_extends_chain(before, g2, base);
            lemma_point_known_later(before, base, aux.to_add);
            lemma_point_known_later(before, base, aux.to_sub);
            assert forall|s: int| 0 <= s < p implies scalar_ready(
                base,
                #[trigger] sweep.scalars[s],
                pairs@[s].1,
                window,
                m,
                width,
            ) && windows_ready(base, sweep.scalars[s], window, m) && sweep.scalars[s]
                == batch_windows(before.len(), width, window, p, s as nat) by {
                lemma_scalar_ready_persists(g2, base, windowed@[s]@, pairs@[s].1, window, m, width);
                lemma_scalar_ready_windows(base, windowed@[s]@, pairs@[s].1, window, m, width);
                assert(decomposed@[s]@ == decomposed_bits((before.len() + s) as nat, width));
            }
            assert(points_known(base, sweep.points)) by {
                assert forall|s: int| 0 <= s < sweep.points.len() implies names_point(
                    base,
                    #[trigger] sweep.points[s],
                ) by {
                    assert(names_point(before, pairs@[s].0));
                    lemma_point_known_later(before, base, pairs@[s].0);
                }
            }
            assert forall|s: int| 0 <= s < p implies table_ready(
                base,
                #[trigger] sweep.tables[s],
                sweep.points[s],
                sweep.to_add,
                s as nat,
                sweep.window,
            ) by {
                assert(table_ready(base, tables@[s]@, pairs@[s].0, aux.to_add, s as nat, window));
            }
            sweep.lemma_ready();
            reveal(prepared);
            assert(base =~= before + decompositions(pairs@, width) + zero_gates(p * zeros)
                + tables_gates(before.len() + p + p * zeros, aux.to_add, pairs@, window, 0));
        }
        Ok((windowed, tables))
    }
}

} // verus!
