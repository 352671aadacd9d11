//! The selection network: picking one entry of a table by the bits of a window.

use crate::bits::{be_value, lemma_be_value_concat};
use crate::curve::Curve;
use crate::ecc::{Selector, Table};
use crate::ecc::general_ecc::GeneralEccChip;
use crate::ecc::general_ecc::accumulator::{conditions_known, points_known};
use crate::error::Error;
use crate::region::{
    condition_value, condition_values, extends, lemma_condition_known_later, lemma_extends_chain,
    lemma_extends_push, lemma_extends_self, lemma_persist, lemma_point_known_later,
    names_condition, names_point, operand, point_at, point_of, AssignedCondition, AssignedPoint,
    Gate, Region, Witness,
};
use vstd::arithmetic::power2::{lemma_pow2_unfold, pow2};
use vstd::prelude::*;

verus! {

/// One round of selection: for each pair of neighbours among `candidates`, the neighbour
/// with the odd place where `cond` is set, and the other one where it is not.
pub open spec fn round_gates(cond: AssignedCondition, candidates: Seq<AssignedPoint>) -> Seq<Gate> {
    Seq::new(
        candidates.len() / 2,
        |j: int| Gate::Select { cond, a: candidates[2 * j + 1], b: candidates[2 * j] },
    )
}

/// What a round leaves: the points in the `count` rows from `first` on.
pub open spec fn round_winners(first: nat, count: nat) -> Seq<AssignedPoint> {
    Seq::new(count, |j: int| point_at((first + j) as nat))
}

/// The selection network over `candidates`, recorded in the rows from `first` on: one
/// round for each bit of `selector`, the last bit first, each round on what the round
/// before it has left.
pub open spec fn selection_gates(
    first: nat,
    selector: Seq<AssignedCondition>,
    candidates: Seq<AssignedPoint>,
) -> Seq<Gate>
    decreases selector.len(),
{
    if selector.len() == 0 {
        Seq::empty()
    } else {
        round_gates(selector.last(), candidates) + selection_gates(
            first + candidates.len() / 2,
            selector.drop_last(),
            round_winners(first, candidates.len() / 2),
        )
    }
}

/// The point that the selection network over `candidates` leaves.
pub open spec fn selected(
    first: nat,
    selector: Seq<AssignedCondition>,
    candidates: Seq<AssignedPoint>,
) -> AssignedPoint
    decreases selector.len(),
{
    if selector.len() == 0 {
        candidates[0]
    } else {
        selected(
            first + candidates.len() / 2,
            selector.drop_last(),
            round_winners(first, candidates.len() / 2),
        )
    }
}

/// The number that the last `count` bits of `selector` spell.
pub open spec fn low_value(
    gates: Seq<Gate>,
    witness: Witness,
    selector: Seq<AssignedCondition>,
    count: nat,
) -> nat {
    be_value(
        condition_values(gates, witness, selector).subrange(
            selector.len() - count,
            selector.len() as int,
        ),
    )
}

/// After `round` rounds of selection, `entry` stands at place `place` among the
/// candidates: whatever the witness, it holds the entry of `table` whose index ends in
/// the last `round` bits of `selector` and starts with `place`.
#[verifier::opaque]
pub open spec fn reduced(
    gates: Seq<Gate>,
    before: Seq<Gate>,
    selector: Seq<AssignedCondition>,
    table: Seq<AssignedPoint>,
    round: nat,
    entry: AssignedPoint,
    place: int,
) -> bool {
    forall|curve: Curve, witness: Witness| #[trigger]
        point_of(gates, curve, witness, entry) == point_of(
            before,
            curve,
            witness,
            table[place * pow2(round) + low_value(before, witness, selector, round)],
        )
}

/// One more bit of a selector in front doubles the weight of nothing that was there.
pub proof fn lemma_low_value_step(
    gates: Seq<Gate>,
    witness: Witness,
    selector: Seq<AssignedCondition>,
    count: nat,
)
    requires
        count < selector.len(),
    ensures
        low_value(gates, witness, selector, count + 1) == low_value(
            gates,
            witness,
            selector,
            count,
        ) + if condition_value(gates, witness, selector[selector.len() - 1 - count]) {
            pow2(count)
        } else {
            0nat
        },
        low_value(gates, witness, selector, 0) == 0,
        low_value(gates, witness, selector, selector.len()) == be_value(
            condition_values(gates, witness, selector),
        ),
{
    let values = condition_values(gates, witness, selector);
    let k = selector.len() as int;
    let bit = values[k - 1 - count];
    let low = values.subrange(k - count, k);
    let head = seq![bit];
    assert(values.subrange(k - count - 1, k) =~= head + low);
    lemma_be_value_concat(head, low);
    assert(head.drop_last() =~= Seq::<bool>::empty());
    assert(be_value(head.drop_last()) == 0);
    assert(head.last() == bit);
    assert(be_value(head) == if bit {
        1nat
    } else {
        0nat
    });
    assert(1 * pow2(count) == pow2(count));
    assert(0 * pow2(count) == 0);
    assert(values.subrange(k, k) =~= Seq::<bool>::empty());
    assert(values.subrange(0, k) =~= values);
}

/// No bit spells zero, and all bits of a selector spell its number.
pub proof fn lemma_low_value_ends(gates: Seq<Gate>, witness: Witness, selector: Seq<AssignedCondition>)
    ensures
        low_value(gates, witness, selector, 0) == 0,
        low_value(gates, witness, selector, selector.len()) == be_value(
            condition_values(gates, witness, selector),
        ),
{
    let values = condition_values(gates, witness, selector);
    let k = selector.len() as int;
    assert(values.subrange(k, k) =~= Seq::<bool>::empty());
    assert(values.subrange(0, k) =~= values);
}

/// Before the first round every entry of the table stands at its own place.
pub proof fn lemma_reduced_start(
    before: Seq<Gate>,
    selector: Seq<AssignedCondition>,
    table: Seq<AssignedPoint>,
    place: int,
)
    requires
        0 <= place < table.len(),
    ensures
        reduced(before, before, selector, table, 0, table[place], place),
{
    reveal(reduced);
    vstd::arithmetic::power2::lemma2_to64();
    assert forall|curve: Curve, witness: Witness| #[trigger]
        point_of(before, curve, witness, table[place]) == point_of(
            before,
            curve,
            witness,
            table[place * pow2(0) + low_value(before, witness, selector, 0)],
        ) by {
        lemma_low_value_ends(before, witness, selector);
    }
}

/// After the last round the one candidate that is left holds the entry that the selector
/// addresses.
pub proof fn lemma_reduced_end(
    gates: Seq<Gate>,
    before: Seq<Gate>,
    selector: Seq<AssignedCondition>,
    table: Seq<AssignedPoint>,
    picked: AssignedPoint,
)
    requires
        reduced(gates, before, selector, table, selector.len(), picked, 0),
    ensures
        forall|curve: Curve, witness: Witness| #[trigger]
            point_of(gates, curve, witness, picked) == point_of(
                before,
                curve,
                witness,
                table[be_value(condition_values(before, witness, selector)) as int],
            ),
{
    reveal(reduced);
    assert forall|curve: Curve, witness: Witness| #[trigger]
        point_of(gates, curve, witness, picked) == point_of(
            before,
            curve,
            witness,
            table[be_value(condition_values(before, witness, selector)) as int],
        ) by {
        lemma_low_value_ends(before, witness, selector);
        assert(0 * pow2(selector.len()) == 0);
    }
}

/// What a round has reduced stays reduced when more operations are recorded.
pub proof fn lemma_reduced_persists(
    gates: Seq<Gate>,
    more: Seq<Gate>,
    before: Seq<Gate>,
    selector: Seq<AssignedCondition>,
    table: Seq<AssignedPoint>,
    round: nat,
    entry: AssignedPoint,
    place: int,
)
    requires
        extends(more, gates),
        entry.cell < gates.len(),
        reduced(gates, before, selector, table, round, entry, place),
    ensures
        reduced(more, before, selector, table, round, entry, place),
{
    reveal(reduced);
    lemma_persist(gates, more);
    assert forall|curve: Curve, witness: Witness| #[trigger]
        point_of(more, curve, witness, entry) == point_of(
            before,
            curve,
            witness,
            table[place * pow2(round) + low_value(before, witness, selector, round)],
        ) by {
        assert(point_of(gates, curve, witness, entry) == point_of(
            before,
            curve,
            witness,
            table[place * pow2(round) + low_value(before, witness, selector, round)],
        ));
    }
}

/// One selection between two neighbours of a round gives a candidate of the next round.
pub proof fn lemma_select_step(
    gates: Seq<Gate>,
    before: Seq<Gate>,
    selector: Seq<AssignedCondition>,
    table: Seq<AssignedPoint>,
    round: nat,
    odd: AssignedPoint,
    even: AssignedPoint,
    place: int,
)
    requires
        extends(gates, before),
        conditions_known(before, selector),
        round < selector.len(),
        odd.cell < gates.len(),
        even.cell < gates.len(),
        gates.len() <= usize::MAX,
        0 <= place,
        reduced(gates, before, selector, table, round, even, 2 * place),
        reduced(gates, before, selector, table, round, odd, 2 * place + 1),
    ensures
        reduced(
            gates.push(
                Gate::Select { cond: selector[selector.len() - 1 - round], a: odd, b: even },
            ),
            before,
            selector,
            table,
            round + 1,
            AssignedPoint { cell: gates.len() as usize },
            place,
        ),
{
    reveal(reduced);
    let cond = selector[selector.len() - 1 - round];
    let gate = Gate::Select { cond, a: odd, b: even };
    let more = gates.push(gate);
    let entry = AssignedPoint { cell: gates.len() as usize };
    let row = gates.len() as int;
    lemma_extends_push(gates, gate);
    lemma_persist(gates, more);
    lemma_persist(before, gates);
    assert(more.take(row) =~= gates);
    assert(names_condition(before, cond));
    lemma_pow2_unfold(round + 1);
    assert forall|curve: Curve, witness: Witness| #[trigger]
        point_of(more, curve, witness, entry) == point_of(
            before,
            curve,
            witness,
            table[place * pow2(round + 1) + low_value(before, witness, selector, round + 1)],
        ) by {
        lemma_low_value_step(before, witness, selector, round);
        let low = low_value(before, witness, selector, round);
        let set = condition_value(before, witness, cond);
        assert(condition_value(gates, witness, cond) == set);
        assert(more[row] == gate);
        assert(entry.cell == row);
        assert(operand(more, curve, witness, row, odd) == point_of(
            gates,
            curve,
            witness,
            odd,
        ));
        assert(operand(more, curve, witness, row, even) == point_of(
            gates,
            curve,
            witness,
            even,
        ));
        assert(point_of(more, curve, witness, entry) == if set {
            point_of(gates, curve, witness, odd)
        } else {
            point_of(gates, curve, witness, even)
        });
        assert(point_of(gates, curve, witness, odd) == point_of(
            before,
            curve,
            witness,
            table[(2 * place + 1) * pow2(round) + low],
        ));
        assert(point_of(gates, curve, witness, even) == point_of(
            before,
            curve,
            witness,
            table[(2 * place) * pow2(round) + low],
        ));
        let p = pow2(round) as int;
        assert((2 * place + 1) * p == place * (2 * p) + p) by (nonlinear_arith);
        assert((2 * place) * p == place * (2 * p)) by (nonlinear_arith);
    }
}

impl GeneralEccChip {
    /// Picks the entry of `table` whose index the bits of `selector` spell, most
    /// significant bit first. Each round halves the candidates by one selection for each
    /// pair of neighbours, steered by one bit of the selector, the last bit first: a set
    /// bit keeps the neighbour with the odd place.
    pub fn select_multi(&self, region: &mut Region, selector: &Selector, table: &Table) -> (result:
        Result<AssignedPoint, Error>)
        requires
            table@.len() == pow2(selector@.len()),
        ensures
            extends(final(region)@, old(region)@),
            old(region).wf() ==> final(region).wf(),
            match result {
                Ok(p) => {
                    &&& conditions_known(old(region)@, selector@)
                    &&& points_known(old(region)@, table@)
                    &&& final(region)@ == old(region)@ + selection_gates(
                        old(region)@.len(),
                        selector@,
                        table@,
                    )
                    &&& p == selected(old(region)@.len(), selector@, table@)
                    &&& final(region)@.len() == old(region)@.len() + table@.len() - 1
                    &&& final(region).has_point(p)
                    &&& forall|curve: Curve, witness: Witness| #[trigger]
                        point_of(final(region)@, curve, witness, p) == point_of(
                            old(region)@,
                            curve,
                            witness,
                            table@[be_value(condition_values(old(region)@, witness, selector@))
                                as int],
                        )
                },
                Err(e) => {
                    &&& !(conditions_known(old(region)@, selector@) && points_known(
                        old(region)@,
                        table@,
                    ))
                    &&& e == Error::UnknownCell
                    &&& final(region)@ == old(region)@
                },
            },
    {
        let ghost before = region@;
        proof {
            lemma_extends_self(before);
        }
        let number_of_selectors = selector.0.len();
        let number_of_points = table.0.len();
        let mut i: usize = 0;
        while i < number_of_selectors
            invariant
                i <= number_of_selectors,
                number_of_selectors == selector@.len(),
                region@ == before,
                extends(before, before),
                conditions_known(before, selector@.take(i as int)),
            decreases number_of_selectors - i,
        {
            if !region.contains_condition(&selector.0[i]) {
                return Err(Error::UnknownCell);
            }
            proof {
                let head = selector@.take(i + 1);
                assert forall|t: int| 0 <= t < head.len() implies names_condition(
                    before,
                    #[trigger] head[t],
                ) by {
                    if t < i {
                        assert(selector@.take(i as int)[t] == head[t]);
                    }
                }
            }
            i = i + 1;
        }
        let mut reducer: Vec<AssignedPoint> = Vec::new();
        let mut i: usize = 0;
        while i < number_of_points
            invariant
                i <= number_of_points,
                number_of_points == table@.len(),
                region@ == before,
                extends(before, before),
                reducer@ == table@.take(i as int),
                points_known(before, reducer@),
            decreases number_of_points - i,
        {
            if !region.contains_point(&table.0[i]) {
                return Err(Error::UnknownCell);
            }
            let ghost copied = reducer@;
            reducer.push(table.0[i]);
            proof {
                assert(reducer@ =~= table@.take(i + 1));
                assert forall|t: int| 0 <= t < reducer@.len() implies names_point(
                    before,
                    #[trigger] reducer@[t],
                ) by {
                    if t < i {
                        assert(copied[t] == reducer@[t]);
                    }
                }
            }
            i = i + 1;
        }
        proof {
            assert(selector@.take(number_of_selectors as int) =~= selector@);
            assert(table@.take(number_of_points as int) =~= table@);
            vstd::arithmetic::power2::lemma2_to64();
            assert forall|t: int| 0 <= t < number_of_points implies reduced(
                before,
                before,
                selector@,
                table@,
                0,
                #[trigger] reducer@[t],
                t,
            ) by {
                lemma_reduced_start(before, selector@, table@, t);
            }
        }
        let ghost first = before.len();
        let ghost mut done: Seq<Gate> = Seq::empty();
        proof {
            assert(before + done =~= before);
            assert(reducer@.take(number_of_points as int) =~= table@);
            assert(done + selection_gates(first, selector@, table@) =~= selection_gates(
                first,
                selector@,
                table@,
            ));
        }
        let mut n: usize = number_of_points;
        let mut round: usize = 0;
        while round < number_of_selectors
            invariant
                round <= number_of_selectors,
                first == before.len(),
                region@ == before + done,
                selection_gates(first, selector@, table@) == done + selection_gates(
                    first + done.len(),
                    selector@.take(number_of_selectors - round),
                    reducer@.take(n as int),
                ),
                selected(first, selector@, table@) == selected(
                    first + done.len(),
                    selector@.take(number_of_selectors - round),
                    reducer@.take(n as int),
                ),
                number_of_selectors == selector@.len(),
                number_of_points == table@.len(),
                n == pow2((number_of_selectors - round) as nat),
                n <= number_of_points,
                reducer@.len() == number_of_points,
                before == old(region)@,
                extends(region@, before),
                old(region).wf() ==> region.wf(),
                region@.len() == before.len() + number_of_points - n,
                conditions_known(before, selector@),
                points_known(before, table@),
                forall|t: int| 0 <= t < n ==> names_point(region@, #[trigger] reducer@[t]),
                forall|t: int|
                    0 <= t < n ==> reduced(
                        region@,
                        before,
                        selector@,
                        table@,
                        round as nat,
                        #[trigger] reducer@[t],
                        t,
                    ),
            decreases number_of_selectors - round,
        {
            let bit = selector.0[number_of_selectors - 1 - round];
            let half = n / 2;
            let ghost candidates_of_round = reducer@.take(n as int);
            let ghost gates_of_round = round_gates(bit, candidates_of_round);
            proof {
                lemma_pow2_unfold((number_of_selectors - round) as nat);
                assert(before + done + gates_of_round.take(0) =~= before + done);
            }
            let mut j: usize = 0;
            while j < half
                invariant
                    j <= half,
                    first == before.len(),
                    candidates_of_round.len() == n,
                    gates_of_round == round_gates(bit, candidates_of_round),
                    region@ == before + done + gates_of_round.take(j as int),
                    forall|t: int| 2 * j <= t < n ==> reducer@[t] == candidates_of_round[t],
                    forall|t: int|
                        0 <= t < j ==> reducer@[t] == point_at((first + done.len() + t) as nat),
                    2 * half == n,
                    n <= number_of_points,
                    round < number_of_selectors,
                    number_of_selectors == selector@.len(),
                    number_of_points == table@.len(),
                    reducer@.len() == number_of_points,
                    bit == selector@[number_of_selectors - 1 - round],
                    before == old(region)@,
                    extends(region@, before),
                    old(region).wf() ==> region.wf(),
                    region@.len() == before.len() + number_of_points - n + j,
                    conditions_known(before, selector@),
                    points_known(before, table@),
                    forall|t: int|
                        (0 <= t < j || 2 * j <= t < n) ==> names_point(
                            region@,
                            #[trigger] reducer@[t],
                        ),
                    forall|t: int|
                        2 * j <= t < n ==> reduced(
                            region@,
                            before,
                            selector@,
                            table@,
                            round as nat,
                            #[trigger] reducer@[t],
                            t,
                        ),
                    forall|t: int|
                        0 <= t < j ==> reduced(
                            region@,
                            before,
                            selector@,
                            table@,
                            (round + 1) as nat,
                            #[trigger] reducer@[t],
                            t,
                        ),
                decreases half - j,
            {
                let ghost current = region@;
                let ghost candidates = reducer@;
                let odd = reducer[2 * j + 1];
                let even = reducer[2 * j];
                proof {
                    region.lemma_offset_fits();
                    assert(names_condition(before, bit));
                    lemma_condition_known_later(before, current, bit);
                    assert(names_point(current, candidates[2 * j + 1]));
                    assert(names_point(current, candidates[2 * j]));
                    assert(reduced(
                        current,
                        before,
                        selector@,
                        table@,
                        round as nat,
                        candidates[2 * j],
                        2 * j,
                    ));
                    assert(reduced(
                        current,
                        before,
                        selector@,
                        table@,
                        round as nat,
                        candidates[2 * j + 1],
                        2 * j + 1,
                    ));
                }
                let chosen = match region.select(&bit, &odd, &even) {
                    Ok(chosen) => chosen,
                    Err(e) => {
                        return Err(e);
                    },
                };
                reducer.set(j, chosen);
                proof {
                    let gate = Gate::Select { cond: bit, a: odd, b: even };
                    lemma_extends_push(current, gate);
                    lemma_extends_chain(before, current, region@);
                    lemma_select_step(
                        current,
                        before,
                        selector@,
                        table@,
                        round as nat,
                        odd,
                        even,
                        j as int,
                    );
                    assert(chosen == AssignedPoint { cell: current.len() as usize });
                    assert(gates_of_round[j as int] == gate);
                    assert(region@ =~= before + done + gates_of_round.take(j + 1));
                    assert forall|t: int| (0 <= t < j + 1 || 2 * (j + 1) <= t < n) implies names_point(
                        region@,
                        #[trigger] reducer@[t],
                    ) by {
                        if t != j {
                            assert(reducer@[t] == candidates[t]);
                            assert(names_point(current, candidates[t]));
                            lemma_point_known_later(current, region@, candidates[t]);
                        }
                    }
                    assert forall|t: int| 2 * (j + 1) <= t < n implies reduced(
                        region@,
                        before,
                        selector@,
                        table@,
                        round as nat,
                        #[trigger] reducer@[t],
                        t,
                    ) by {
                        assert(reducer@[t] == candidates[t]);
                        assert(names_point(current, candidates[t]));
                        lemma_reduced_persists(
                            current,
                            region@,
                            before,
                            selector@,
                            table@,
                            round as nat,
                            candidates[t],
                            t,
                        );
                    }
                    assert forall|t: int| 0 <= t < j + 1 implies reduced(
                        region@,
                        before,
                        selector@,
                        table@,
                        (round + 1) as nat,
                        #[trigger] reducer@[t],
                        t,
                    ) by {
                        if t < j {
                            assert(reducer@[t] == candidates[t]);
                            assert(names_point(current, candidates[t]));
                            lemma_reduced_persists(
                                current,
                                region@,
                                before,
                                selector@,
                                table@,
                                (round + 1) as nat,
                                candidates[t],
                                t,
                            );
                        }
                    }
                }
                j = j + 1;
            }
            proof {
                let head = selector@.take(number_of_selectors - round);
                let winners = round_winners((first + done.len()) as nat, half as nat);
                assert(head.last() == bit);
                assert(head.drop_last() =~= selector@.take(number_of_selectors - round - 1));
                assert(reducer@.take(half as int) =~= winners);
                assert(gates_of_round.take(half as int) =~= gates_of_round);
                let rest = selection_gates(
                    (first + done.len() + half) as nat,
                    head.drop_last(),
                    winners,
                );
                assert(selection_gates((first + done.len()) as nat, head, candidates_of_round)
                    == gates_of_round + rest);
                assert(done + (gates_of_round + rest) =~= (done + gates_of_round) + rest);
                assert(before + done + gates_of_round =~= before + (done + gates_of_round));
                done = done + gates_of_round;
            }
            n = half;
            round = round + 1;
        }
        let picked = reducer[0];
        proof {
            vstd::arithmetic::power2::lemma2_to64();
            let after = region@;
            assert(selector@.take(0) =~= Seq::<AssignedCondition>::empty());
            assert(done + Seq::<Gate>::empty() =~= done);
            assert(reducer@.take(1)[0] == picked);
            assert(reduced(
                after,
                before,
                selector@,
                table@,
                number_of_selectors as nat,
                reducer@[0],
                0,
            ));
            lemma_reduced_end(after, before, selector@, table@, picked);
        }
        Ok(picked)
    }
}

} // verus!
