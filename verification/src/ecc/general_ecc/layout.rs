//! The rows of a multiplication: which operation each of them holds.

use crate::bits::{padding, window_count};
use crate::ecc::MulAux;
use crate::ecc::general_ecc::selection::{selected, selection_gates};
use crate::ecc::general_ecc::table::{table_entries, table_gates, table_rows};
use crate::ecc::general_ecc::windows::{chunks, padded_bits, zero_gates};
use crate::region::{point_at, AssignedCondition, AssignedInteger, AssignedPoint, Gate};
use vstd::prelude::*;

verus! {

/// The rows that bring one entry of a table into the accumulator by a plain addition:
/// the selection of the entry in the rows from `first` on, and the addition.
pub open spec fn pick_add_gates(
    first: nat,
    acc: AssignedPoint,
    selector: Seq<AssignedCondition>,
    table: Seq<AssignedPoint>,
) -> Seq<Gate> {
    selection_gates(first, selector, table).push(
        Gate::Add { a: acc, b: selected(first, selector, table) },
    )
}

/// The rows that shift the accumulator by one window and bring one entry of a table in,
/// the last doubling being made as the entry is added: `window - 1` doublings in the row
/// `first`, the selection of the entry, and the doubling and addition in one.
pub open spec fn pick_ladder_gates(
    first: nat,
    acc: AssignedPoint,
    selector: Seq<AssignedCondition>,
    table: Seq<AssignedPoint>,
    window: nat,
) -> Seq<Gate> {
    (seq![Gate::DoubleN { a: acc, n: (window - 1) as usize }] + selection_gates(
        first + 1,
        selector,
        table,
    )).push(Gate::Ladder { acc: point_at(first), addend: selected(first + 1, selector, table) })
}

/// The rows of the windows from `from` on of one scalar, each brought in by
/// `pick_ladder_gates`, the accumulator standing in `acc` before.
pub open spec fn ladder_gates(
    first: nat,
    acc: AssignedPoint,
    windows: Seq<Seq<AssignedCondition>>,
    table: Seq<AssignedPoint>,
    window: nat,
    from: nat,
) -> Seq<Gate>
    decreases windows.len() - from,
{
    if from >= windows.len() {
        Seq::empty()
    } else {
        pick_ladder_gates(first, acc, windows[from as int], table, window) + ladder_gates(
            first + table_rows(window) + 2,
            point_at(first + table_rows(window) + 1),
            windows,
            table,
            window,
            from + 1,
        )
    }
}

/// The rows of the sweep over the windows of one scalar: the selection for the first
/// window; then, where there are more windows, `window` doublings, the second window
/// brought in by a plain addition, and each further window by `pick_ladder_gates`.
pub open spec fn sweep_gates(
    first: nat,
    windows: Seq<Seq<AssignedCondition>>,
    table: Seq<AssignedPoint>,
    window: nat,
) -> Seq<Gate> {
    let rows = table_rows(window);
    selection_gates(first, windows[0], table) + if windows.len() > 1 {
        seq![Gate::DoubleN { a: selected(first, windows[0], table), n: window as usize }]
            + pick_add_gates(first + rows + 1, point_at(first + rows), windows[1], table)
            + ladder_gates(
            first + 2 * rows + 2,
            point_at(first + 2 * rows + 1),
            windows,
            table,
            window,
            2,
        )
    } else {
        Seq::empty()
    }
}

/// The accumulator after the sweep over the windows of one scalar.
pub open spec fn sweep_result(
    first: nat,
    windows: Seq<Seq<AssignedCondition>>,
    table: Seq<AssignedPoint>,
    window: nat,
) -> AssignedPoint {
    if windows.len() > 1 {
        point_at((first + table_rows(window) + (windows.len() - 1) * (table_rows(window) + 2) - 1) as nat)
    } else {
        selected(first, windows[0], table)
    }
}

/// The rows of a sweep over two windows or more, put together from its parts.
pub proof fn lemma_sweep_gates(
    before: Seq<Gate>,
    picking: Seq<Gate>,
    doubled: Seq<Gate>,
    adding: Seq<Gate>,
    last: Seq<Gate>,
    windows: Seq<Seq<AssignedCondition>>,
    table: Seq<AssignedPoint>,
    window: nat,
)
    requires
        windows.len() > 1,
        picking == before + selection_gates(before.len(), windows[0], table),
        picking.len() == before.len() + table_rows(window),
        doubled == picking.push(
            Gate::DoubleN { a: selected(before.len(), windows[0], table), n: window as usize },
        ),
        adding == doubled + pick_add_gates(
            doubled.len(),
            point_at(picking.len()),
            windows[1],
            table,
        ),
        adding.len() == doubled.len() + table_rows(window) + 1,
        last == adding + ladder_gates(
            adding.len(),
            point_at((doubled.len() + table_rows(window)) as nat),
            windows,
            table,
            window,
            2,
        ),
        last.len() == adding.len() + (windows.len() - 2) * (table_rows(window) + 2),
    ensures
        last == before + sweep_gates(before.len(), windows, table, window),
        last.len() == before.len() + table_rows(window) + (windows.len() - 1) * (table_rows(
            window,
        ) + 2),
        windows.len() > 2 ==> sweep_result(before.len(), windows, table, window) == point_at(
            (last.len() - 1) as nat,
        ),
        windows.len() == 2 ==> sweep_result(before.len(), windows, table, window) == point_at(
            (doubled.len() + table_rows(window)) as nat,
        ),
{
    let rows = table_rows(window);
    let step = rows + 2;
    let m = windows.len();
    assert((m - 1) * step == (m - 2) * step + step) by (nonlinear_arith);
    assert((m - 2) * step >= 0) by (nonlinear_arith)
        requires
            m >= 2,
            step >= 0,
    ;
    if m == 2 {
        assert((m - 2) * step == 0);
    }
    assert(last =~= before + sweep_gates(before.len(), windows, table, window));
}

/// The rows of a multiplication, recorded from the row `first` on: the decomposition of
/// the scalar, the zero constants of the padding, the table of the point over `to_add`,
/// the sweep over the windows, and the addition of `to_sub`.
pub open spec fn mul_gates(
    first: nat,
    bits: nat,
    window: nat,
    point: AssignedPoint,
    scalar: AssignedInteger,
    aux: MulAux,
) -> Seq<Gate> {
    let zeros = padding(bits, window);
    let windows = chunks(padded_bits(first, first + 1, bits, window), window);
    let table = table_entries(first + 1 + zeros, aux.to_add, window);
    let sweep = first + 1 + zeros + table_rows(window);
    (seq![Gate::Decompose { integer: scalar, bits: bits as usize }] + zero_gates(zeros)
        + table_gates(first + 1 + zeros, aux.to_add, point, window) + sweep_gates(
        sweep,
        windows,
        table,
        window,
    )).push(Gate::Add { a: sweep_result(sweep, windows, table, window), b: aux.to_sub })
}

/// The decompositions of the scalars of `pairs`, in the order of the pairs.
pub open spec fn decompositions(pairs: Seq<(AssignedPoint, AssignedInteger)>, bits: nat) -> Seq<Gate> {
    Seq::new(pairs.len(), |t: int| Gate::Decompose { integer: pairs[t].1, bits: bits as usize })
}

/// The root of the table of pair `t`, the tables being recorded from the row `first` on:
/// the auxiliary point for the first table, and for each further one the double of the
/// root before, which stands in the row before the table.
pub open spec fn batch_root(first: nat, to_add: AssignedPoint, window: nat, t: nat) -> AssignedPoint {
    if t == 0 {
        to_add
    } else {
        point_at((first + t * (table_rows(window) + 1) - 1) as nat)
    }
}

/// The entries of the table of pair `t`, the tables being recorded from the row `first`
/// on.
pub open spec fn batch_table(first: nat, to_add: AssignedPoint, window: nat, t: nat) -> Seq<
    AssignedPoint,
> {
    table_entries(first + t * (table_rows(window) + 1), batch_root(first, to_add, window, t), window)
}

/// The rows of the tables of the pairs from `from` on, the tables being recorded from
/// the row `first` on: each table, and after each table but the last the double of its
/// root.
pub open spec fn tables_gates(
    first: nat,
    to_add: AssignedPoint,
    pairs: Seq<(AssignedPoint, AssignedInteger)>,
    window: nat,
    from: nat,
) -> Seq<Gate>
    decreases pairs.len() - from,
{
    if from >= pairs.len() {
        Seq::empty()
    } else {
        table_gates(
            first + from * (table_rows(window) + 1),
            batch_root(first, to_add, window, from),
            pairs[from as int].0,
            window,
        ) + (if from + 1 < pairs.len() {
            seq![Gate::Double { a: batch_root(first, to_add, window, from) }]
        } else {
            Seq::empty()
        }) + tables_gates(first, to_add, pairs, window, from + 1)
    }
}

/// The rows that bring window `i` in for the pairs from `from` on, each by
/// `pick_add_gates`, the accumulator standing in `acc` before.
pub open spec fn adding_gates(
    first: nat,
    acc: AssignedPoint,
    scalars: Seq<Seq<Seq<AssignedCondition>>>,
    tables: Seq<Seq<AssignedPoint>>,
    window: nat,
    i: int,
    from: nat,
) -> Seq<Gate>
    decreases scalars.len() - from,
{
    if from >= scalars.len() {
        Seq::empty()
    } else {
        pick_add_gates(first, acc, scalars[from as int][i], tables[from as int]) + adding_gates(
            first + table_rows(window) + 1,
            point_at(first + table_rows(window)),
            scalars,
            tables,
            window,
            i,
            from + 1,
        )
    }
}

/// The rows of the windows from `from` on of a batch: for each window `window`
/// doublings of the accumulator, which stands in `acc` before, and the window brought in
/// for every pair.
pub open spec fn windows_gates(
    first: nat,
    acc: AssignedPoint,
    scalars: Seq<Seq<Seq<AssignedCondition>>>,
    tables: Seq<Seq<AssignedPoint>>,
    window: nat,
    windows: nat,
    from: nat,
) -> Seq<Gate>
    decreases windows - from,
{
    if from >= windows {
        Seq::empty()
    } else {
        let step = 1 + scalars.len() * (table_rows(window) + 1);
        seq![Gate::DoubleN { a: acc, n: window as usize }] + adding_gates(
            first + 1,
            point_at(first),
            scalars,
            tables,
            window,
            from as int,
            0,
        ) + windows_gates(
            first + step,
            point_at((first + step - 1) as nat),
            scalars,
            tables,
            window,
            windows,
            from + 1,
        )
    }
}

/// The windows of the scalar of pair `t` of a batch of `pairs` pairs that is recorded
/// from the row `first` on.
pub open spec fn batch_windows(first: nat, bits: nat, window: nat, pairs: nat, t: nat) -> Seq<
    Seq<AssignedCondition>,
> {
    chunks(
        padded_bits(first + t, first + pairs + t * padding(bits, window), bits, window),
        window,
    )
}

/// The rows of the sweep over the windows of a batch, recorded from the row `first` on:
/// the selection for the first window of the first scalar, the first window brought in
/// for every further pair, and the further windows.
pub open spec fn batch_sweep_gates(
    first: nat,
    scalars: Seq<Seq<Seq<AssignedCondition>>>,
    tables: Seq<Seq<AssignedPoint>>,
    window: nat,
    windows: nat,
) -> Seq<Gate> {
    let rows = table_rows(window);
    let picked = selected(first, scalars[0][0], tables[0]);
    let at_windows = first + rows + (scalars.len() - 1) * (rows + 1);
    selection_gates(first, scalars[0][0], tables[0]) + adding_gates(
        first + rows,
        picked,
        scalars,
        tables,
        window,
        0,
        1,
    ) + windows_gates(
        at_windows as nat,
        if scalars.len() > 1 {
            point_at((at_windows - 1) as nat)
        } else {
            picked
        },
        scalars,
        tables,
        window,
        windows,
        1,
    )
}

/// The rows that the sweep over the windows of a batch takes.
pub open spec fn batch_sweep_rows(window: nat, windows: nat, pairs: nat) -> nat {
    let rows = table_rows(window);
    (rows + (pairs - 1) * (rows + 1) + (windows - 1) * (1 + pairs * (rows + 1))) as nat
}

/// The accumulator after the sweep over the windows of a batch.
pub open spec fn batch_sweep_result(
    first: nat,
    scalars: Seq<Seq<Seq<AssignedCondition>>>,
    tables: Seq<Seq<AssignedPoint>>,
    window: nat,
    windows: nat,
) -> AssignedPoint {
    if windows > 1 || scalars.len() > 1 {
        point_at((first + batch_sweep_rows(window, windows, scalars.len()) - 1) as nat)
    } else {
        selected(first, scalars[0][0], tables[0])
    }
}

/// The rows of a batch multiplication, recorded from the row `first` on: the
/// decompositions of all scalars, the zero constants of all paddings, the tables, the
/// sweep over the windows, and the addition of `to_sub`.
pub open spec fn batch_gates(
    first: nat,
    bits: nat,
    window: nat,
    pairs: Seq<(AssignedPoint, AssignedInteger)>,
    aux: MulAux,
) -> Seq<Gate> {
    let p = pairs.len();
    let windows = window_count(bits, window);
    let scalars = Seq::new(p, |t: int| batch_windows(first, bits, window, p, t as nat));
    let at_tables = first + p + p * padding(bits, window);
    let tables = Seq::new(p, |t: int| batch_table(at_tables, aux.to_add, window, t as nat));
    let at_sweep = (at_tables + p * table_rows(window) + p - 1) as nat;
    (decompositions(pairs, bits) + zero_gates(p * padding(bits, window)) + tables_gates(
        at_tables,
        aux.to_add,
        pairs,
        window,
        0,
    ) + batch_sweep_gates(at_sweep, scalars, tables, window, windows)).push(
        Gate::Add {
            a: batch_sweep_result(at_sweep, scalars, tables, window, windows),
            b: aux.to_sub,
        },
    )
}

} // verus!
