//! From an assigned scalar to its windows: what the bits spell on the way.

use crate::bits::{
    be_value, le_value, lemma_be_value_concat, lemma_be_value_leading_zeros, lemma_low_bits_value,
    lemma_padding, low_bits, padding, window_count,
};
use crate::ecc::{Selector, Windowed};
use crate::ecc::general_ecc::GeneralEccChip;
use crate::ecc::general_ecc::accumulator::{conditions_known, prefix_value, windows_ready};
use crate::ecc::general_ecc::layout::decompositions;
use crate::ecc::general_ecc::scalar_mul::pairs_known;
use crate::error::Error;
use crate::region::{
    condition_value, condition_values, extends, integer_value, lemma_extends_chain,
    lemma_extends_push, lemma_extends_self, lemma_persist, names_condition, names_integer,
    AssignedCondition, AssignedInteger, AssignedPoint, Gate, Region, Witness,
};
use vstd::arithmetic::power2::pow2;
use vstd::prelude::*;

verus! {

/// The bits of one decomposition: the handles of the `width` bits in the row `cell`.
pub open spec fn decomposed_bits(cell: nat, width: nat) -> Seq<AssignedCondition> {
    Seq::new(width, |j: int| AssignedCondition { cell: cell as usize, position: j as usize })
}

/// The bits of a scalar once they are padded: the bits of the decomposition in the row
/// `decomposition` and the constants in the rows from `zeros` on, the last constant first
/// and the least significant bit last.
pub open spec fn padded_bits(decomposition: nat, zeros: nat, width: nat, window: nat) -> Seq<
    AssignedCondition,
> {
    (decomposed_bits(decomposition, width) + constants_at(zeros, padding(width, window))).reverse()
}

/// `bits` cut into windows of `window` bits each, in their order.
pub open spec fn chunks(bits: Seq<AssignedCondition>, window: nat) -> Seq<Seq<AssignedCondition>> {
    Seq::new(bits.len() / window, |i: int| bits.subrange(i * window, (i + 1) * window))
}

/// `bits` are bits among `gates` that spell `integer`, least significant bit first,
/// whenever `integer` has no more than `width` bits.
#[verifier::opaque]
pub open spec fn spells_reversed(
    gates: Seq<Gate>,
    bits: Seq<AssignedCondition>,
    integer: AssignedInteger,
    width: nat,
) -> bool {
    &&& conditions_known(gates, bits)
    &&& forall|witness: Witness|
        integer_value(witness, integer) < pow2(width) ==> #[trigger] le_value(
            condition_values(gates, witness, bits),
        ) == integer_value(witness, integer)
}

/// `bits` are bits among `gates` that spell `integer`, most significant bit first,
/// whenever `integer` has no more than `width` bits.
#[verifier::opaque]
pub open spec fn spells(
    gates: Seq<Gate>,
    bits: Seq<AssignedCondition>,
    integer: AssignedInteger,
    width: nat,
) -> bool {
    &&& conditions_known(gates, bits)
    &&& forall|witness: Witness|
        integer_value(witness, integer) < pow2(width) ==> #[trigger] be_value(
            condition_values(gates, witness, bits),
        ) == integer_value(witness, integer)
}

/// `windows` are `count` windows of bits among `gates` that together spell `integer`,
/// whenever `integer` has no more than `width` bits.
#[verifier::opaque]
pub open spec fn scalar_ready(
    gates: Seq<Gate>,
    windows: Seq<Seq<AssignedCondition>>,
    integer: AssignedInteger,
    window: nat,
    count: nat,
    width: nat,
) -> bool {
    &&& windows_ready(gates, windows, window, count)
    &&& forall|witness: Witness|
        integer_value(witness, integer) < pow2(width) ==> #[trigger] prefix_value(
            gates,
            witness,
            windows,
            window,
            count,
        ) == integer_value(witness, integer)
}

/// Bits that are known stay known when more operations are recorded.
pub proof fn lemma_conditions_known_later(
    gates: Seq<Gate>,
    more: Seq<Gate>,
    bits: Seq<AssignedCondition>,
)
    requires
        extends(more, gates),
        conditions_known(gates, bits),
    ensures
        conditions_known(more, bits),
{
    lemma_persist(gates, more);
    assert forall|t: int| 0 <= t < bits.len() implies names_condition(more, #[trigger] bits[t]) by {
        assert(names_condition(gates, bits[t]));
    }
}

/// Bits that are known keep their values when more operations are recorded.
pub proof fn lemma_conditions_persist(
    gates: Seq<Gate>,
    more: Seq<Gate>,
    witness: Witness,
    bits: Seq<AssignedCondition>,
)
    requires
        extends(more, gates),
        conditions_known(gates, bits),
    ensures
        conditions_known(more, bits),
        condition_values(more, witness, bits) == condition_values(gates, witness, bits),
{
    lemma_persist(gates, more);
    assert forall|t: int| 0 <= t < bits.len() implies names_condition(more, #[trigger] bits[t]) by {
        assert(names_condition(gates, bits[t]));
    }
    assert(condition_values(more, witness, bits) =~= condition_values(gates, witness, bits)) by {
        assert forall|t: int| 0 <= t < bits.len() implies condition_values(more, witness, bits)[t]
            == condition_values(gates, witness, bits)[t] by {
            assert(names_condition(gates, bits[t]));
        }
    }
}

/// The bits of a decomposition spell the integer that was decomposed.
pub proof fn lemma_decomposed(gates: Seq<Gate>, integer: AssignedInteger, width: usize)
    requires
        gates.len() <= usize::MAX,
    ensures
        spells_reversed(
            gates.push(Gate::Decompose { integer, bits: width }),
            decomposed_bits(gates.len(), width as nat),
            integer,
            width as nat,
        ),
{
    reveal(spells_reversed);
    let gate = Gate::Decompose { integer, bits: width };
    let more = gates.push(gate);
    let bits = decomposed_bits(gates.len(), width as nat);
    assert forall|j: int| 0 <= j < bits.len() implies names_condition(more, #[trigger] bits[j]) by {
        assert(more[gates.len() as int] == gate);
    }
    assert forall|witness: Witness|
        integer_value(witness, integer) < pow2(width as nat) implies #[trigger] le_value(
        condition_values(more, witness, bits),
    ) == integer_value(witness, integer) by {
        let n = integer_value(witness, integer);
        assert(condition_values(more, witness, bits) =~= low_bits(n, width as nat)) by {
            assert forall|j: int| 0 <= j < width implies condition_values(more, witness, bits)[j]
                == low_bits(n, width as nat)[j] by {
                assert(more[gates.len() as int] == gate);
                assert(condition_value(more, witness, bits[j]) == crate::bits::bit_of(n, j as nat));
            }
        }
        lemma_low_bits_value(n, width as nat);
    }
}

/// Bits that spell an integer go on spelling it when more operations are recorded.
pub proof fn lemma_spells_reversed_persists(
    gates: Seq<Gate>,
    more: Seq<Gate>,
    bits: Seq<AssignedCondition>,
    integer: AssignedInteger,
    width: nat,
)
    requires
        extends(more, gates),
        spells_reversed(gates, bits, integer, width),
    ensures
        spells_reversed(more, bits, integer, width),
{
    reveal(spells_reversed);
    assert forall|witness: Witness|
        integer_value(witness, integer) < pow2(width) implies #[trigger] le_value(
        condition_values(more, witness, bits),
    ) == integer_value(witness, integer) by {
        lemma_conditions_persist(gates, more, witness, bits);
        assert(le_value(condition_values(gates, witness, bits)) == integer_value(
            witness,
            integer,
        ));
    }
    lemma_conditions_known_later(gates, more, bits);
}

/// The first windows of a sequence of bits spell what the bits they are cut from spell.
pub proof fn lemma_windows_spell(
    gates: Seq<Gate>,
    witness: Witness,
    bits: Seq<AssignedCondition>,
    windows: Seq<Seq<AssignedCondition>>,
    window: nat,
    count: nat,
)
    requires
        count <= windows.len(),
        windows.len() * window == bits.len(),
        forall|i: int|
            0 <= i < windows.len() ==> #[trigger] windows[i] == bits.subrange(
                i * window,
                (i + 1) * window,
            ),
    ensures
        count * window <= bits.len(),
        prefix_value(gates, witness, windows, window, count) == be_value(
            condition_values(gates, witness, bits.take((count * window) as int)),
        ),
    decreases count,
{
    assert(count * window <= windows.len() * window) by (nonlinear_arith)
        requires
            count <= windows.len(),
    ;
    if count == 0 {
        assert(0 * window == 0);
        assert(condition_values(gates, witness, bits.take(0)) =~= Seq::<bool>::empty());
    } else {
        let k = (count - 1) as nat;
        lemma_windows_spell(gates, witness, bits, windows, window, k);
        assert((k + 1) * window == k * window + window) by (nonlinear_arith);
        let head = bits.take((k * window) as int);
        let last = windows[k as int];
        assert(last == bits.subrange((k * window) as int, ((k + 1) * window) as int));
        assert(bits.take((count * window) as int) =~= head + last);
        assert(condition_values(gates, witness, head + last) =~= condition_values(
            gates,
            witness,
            head,
        ) + condition_values(gates, witness, last));
        lemma_be_value_concat(
            condition_values(gates, witness, head),
            condition_values(gates, witness, last),
        );
    }
}

/// Windows that are cut from bits that spell an integer are ready for a sweep.
pub proof fn lemma_scalar_ready(
    gates: Seq<Gate>,
    bits: Seq<AssignedCondition>,
    windows: Seq<Seq<AssignedCondition>>,
    integer: AssignedInteger,
    window: nat,
    width: nat,
)
    requires
        spells(gates, bits, integer, width),
        windows.len() * window == bits.len(),
        forall|i: int|
            0 <= i < windows.len() ==> #[trigger] windows[i] == bits.subrange(
                i * window,
                (i + 1) * window,
            ),
    ensures
        scalar_ready(gates, windows, integer, window, windows.len(), width),
{
    reveal(scalar_ready);
    reveal(spells);
    reveal(windows_ready);
    let count = windows.len();
    assert forall|i: int| 0 <= i < count implies (#[trigger] windows[i]).len() == window
        && conditions_known(gates, windows[i]) by {
        assert((i + 1) * window <= count * window) by (nonlinear_arith)
            requires
                i + 1 <= count,
        ;
        assert((i + 1) * window == i * window + window) by (nonlinear_arith);
        assert(0 <= i * window) by (nonlinear_arith)
            requires
                0 <= i,
        ;
        assert forall|t: int| 0 <= t < windows[i].len() implies names_condition(
            gates,
            #[trigger] windows[i][t],
        ) by {
            assert(windows[i][t] == bits[i * window + t]);
        }
    }
    assert forall|witness: Witness|
        integer_value(witness, integer) < pow2(width) implies #[trigger] prefix_value(
        gates,
        witness,
        windows,
        window,
        count,
    ) == integer_value(witness, integer) by {
        lemma_windows_spell(gates, witness, bits, windows, window, count);
        assert(bits.take((count * window) as int) =~= bits);
        assert(be_value(condition_values(gates, witness, bits)) == integer_value(
            witness,
            integer,
        ));
    }
}

/// Windows that are ready for a sweep are windows of known bits.
pub proof fn lemma_scalar_ready_windows(
    gates: Seq<Gate>,
    windows: Seq<Seq<AssignedCondition>>,
    integer: AssignedInteger,
    window: nat,
    count: nat,
    width: nat,
)
    requires
        scalar_ready(gates, windows, integer, window, count, width),
    ensures
        windows_ready(gates, windows, window, count),
{
    reveal(scalar_ready);
}

/// Bits that spell an integer least significant first spell it most significant first
/// once they are turned round behind zero bits.
pub proof fn lemma_padded_spells(
    before: Seq<Gate>,
    after: Seq<Gate>,
    given: Seq<AssignedCondition>,
    padded: Seq<AssignedCondition>,
    integer: AssignedInteger,
    width: nat,
)
    requires
        spells_reversed(before, given, integer, width),
        conditions_known(before, given) ==> conditions_known(after, padded),
        forall|witness: Witness|
            be_value(#[trigger] condition_values(after, witness, padded)) == le_value(
                condition_values(before, witness, given),
            ),
    ensures
        spells(after, padded, integer, width),
{
    reveal(spells);
    reveal(spells_reversed);
    assert forall|witness: Witness|
        integer_value(witness, integer) < pow2(width) implies #[trigger] be_value(
        condition_values(after, witness, padded),
    ) == integer_value(witness, integer) by {
        assert(le_value(condition_values(before, witness, given)) == integer_value(
            witness,
            integer,
        ));
    }
}

/// What windows spell stays what it is when more operations are recorded.
pub proof fn lemma_prefix_persists(
    gates: Seq<Gate>,
    more: Seq<Gate>,
    witness: Witness,
    windows: Seq<Seq<AssignedCondition>>,
    window: nat,
    total: nat,
    count: nat,
)
    requires
        extends(more, gates),
        windows_ready(gates, windows, window, total),
        count <= total,
    ensures
        prefix_value(more, witness, windows, window, count) == prefix_value(
            gates,
            witness,
            windows,
            window,
            count,
        ),
    decreases count,
{
    reveal(windows_ready);
    if count > 0 {
        lemma_prefix_persists(gates, more, witness, windows, window, total, (count - 1) as nat);
        assert(conditions_known(gates, windows[count - 1]));
        lemma_conditions_persist(gates, more, witness, windows[count - 1]);
    }
}

/// Windows that are ready stay ready when more operations are recorded.
pub proof fn lemma_scalar_ready_persists(
    gates: Seq<Gate>,
    more: Seq<Gate>,
    windows: Seq<Seq<AssignedCondition>>,
    integer: AssignedInteger,
    window: nat,
    count: nat,
    width: nat,
)
    requires
        extends(more, gates),
        scalar_ready(gates, windows, integer, window, count, width),
    ensures
        scalar_ready(more, windows, integer, window, count, width),
{
    reveal(scalar_ready);
    reveal(windows_ready);
    assert forall|i: int| 0 <= i < count implies (#[trigger] windows[i]).len() == window
        && conditions_known(more, windows[i]) by {
        assert(conditions_known(gates, windows[i]));
        lemma_conditions_known_later(gates, more, windows[i]);
    }
    assert forall|witness: Witness|
        integer_value(witness, integer) < pow2(width) implies #[trigger] prefix_value(
        more,
        witness,
        windows,
        window,
        count,
    ) == integer_value(witness, integer) by {
        lemma_prefix_persists(gates, more, witness, windows, window, count, count);
        assert(prefix_value(gates, witness, windows, window, count) == integer_value(
            witness,
            integer,
        ));
    }
}

/// The handles of `count` constants in the rows from `first` on.
pub open spec fn constants_at(first: nat, count: nat) -> Seq<AssignedCondition> {
    Seq::new(count, |i: int| AssignedCondition { cell: (first + i) as usize, position: 0 })
}

/// `count` rows that each hold the constant zero.
pub open spec fn zero_gates(count: nat) -> Seq<Gate> {
    Seq::new(count, |i: int| Gate::Constant { bit: false })
}

/// The handles of `conds` once more.
pub(crate) fn copied(conds: &Vec<AssignedCondition>) -> (result: Vec<AssignedCondition>)
    ensures
        result@ == conds@,
{
    let mut result: Vec<AssignedCondition> = Vec::new();
    let mut i: usize = 0;
    while i < conds.len()
        invariant
            i <= conds@.len(),
            result@ == conds@.take(i as int),
        decreases conds@.len() - i,
    {
        result.push(conds[i]);
        proof {
            assert(result@ =~= conds@.take(i + 1));
        }
        i = i + 1;
    }
    proof {
        assert(conds@.take(conds@.len() as int) =~= conds@);
    }
    result
}

/// The handles of `conds` in the opposite order.
fn reversed(conds: &Vec<AssignedCondition>) -> (result: Vec<AssignedCondition>)
    ensures
        result@ == conds@.reverse(),
{
    let mut result: Vec<AssignedCondition> = Vec::new();
    let mut i: usize = conds.len();
    while i > 0
        invariant
            i <= conds@.len(),
            result@.len() == conds@.len() - i,
            forall|t: int| 0 <= t < result@.len() ==> result@[t] == conds@[conds@.len() - 1 - t],
        decreases i,
    {
        i = i - 1;
        result.push(conds[i]);
    }
    assert(result@ =~= conds@.reverse());
    result
}

impl GeneralEccChip {
    /// Brings the bits of a scalar, which come least significant first, to a multiple of
    /// `window_size` and turns them round: zero constants go in front of the most
    /// significant bit, and the most significant bit comes first. The number that the
    /// bits spell stays the same.
    pub fn pad(&self, region: &mut Region, bits: &mut Vec<AssignedCondition>, window_size: usize)
        requires
            old(bits)@.len() == self.bits(),
            window_size > 0,
        ensures
            final(region)@ == old(region)@ + zero_gates(padding(self.bits(), window_size as nat)),
            final(bits)@ == (old(bits)@ + constants_at(
                old(region)@.len(),
                padding(self.bits(), window_size as nat),
            )).reverse(),
            final(bits)@.len() == self.bits() + padding(self.bits(), window_size as nat),
            final(bits)@.len() == window_size * window_count(self.bits(), window_size as nat),
            final(bits)@.len() % (window_size as nat) == 0,
            extends(final(region)@, old(region)@),
            old(region).wf() ==> final(region).wf(),
            conditions_known(old(region)@, old(bits)@) ==> conditions_known(
                final(region)@,
                final(bits)@,
            ),
            forall|witness: Witness|
                be_value(#[trigger] condition_values(final(region)@, witness, final(bits)@))
                    == le_value(condition_values(old(region)@, witness, old(bits)@)),
    {
        let ghost width = self.bits();
        let ghost first = region@.len();
        let ghost given = bits@;
        let ghost before = region@;
        let len = bits.len();
        let padding_offset = (window_size - (len % window_size)) % window_size;
        proof {
            lemma_padding(width, window_size as nat);
            lemma_extends_self(before);
            assert(before + zero_gates(0) =~= before);
            assert(given + constants_at(first, 0) =~= given);
        }
        let mut i: usize = 0;
        while i < padding_offset
            invariant
                i <= padding_offset,
                region@ == before + zero_gates(i as nat),
                bits@ == given + constants_at(first, i as nat),
                first == before.len(),
                extends(region@, before),
                old(region).wf() ==> region.wf(),
                before == old(region)@,
            decreases padding_offset - i,
        {
            let ghost current = region@;
            let zero = region.assign_constant(false);
            bits.push(zero);
            proof {
                lemma_extends_push(current, Gate::Constant { bit: false });
                lemma_extends_chain(before, current, region@);
                assert(region@ =~= before + zero_gates((i + 1) as nat));
                assert(bits@ =~= given + constants_at(first, (i + 1) as nat));
            }
            i = i + 1;
        }
        let ghost padded = bits@;
        let turned = reversed(bits);
        *bits = turned;
        proof {
            let count = padding_offset as nat;
            let after = region@;
            region.lemma_offset_fits();
            assert(conditions_known(before, given) ==> conditions_known(after, bits@)) by {
                if conditions_known(before, given) {
                    assert forall|t: int| 0 <= t < bits@.len() implies names_condition(
                        after,
                        #[trigger] bits@[t],
                    ) by {
                        let s = padded.len() - 1 - t;
                        assert(bits@[t] == padded[s]);
                        if s < given.len() {
                            assert(padded[s] == given[s]);
                            assert(names_condition(before, given[s]));
                            assert(after[given[s].cell as int] == before[given[s].cell as int]);
                        } else {
                            assert(padded[s] == constants_at(first, count)[s - given.len()]);
                            assert(after[first + (s - given.len())] == zero_gates(count)[s
                                - given.len()]);
                        }
                    }
                }
            }
            assert forall|witness: Witness|
                be_value(#[trigger] condition_values(after, witness, bits@)) == le_value(
                    condition_values(before, witness, given),
                ) by {
                let values = condition_values(before, witness, given);
                let zeros = Seq::new(count, |t: int| false);
                assert(condition_values(after, witness, bits@) =~= zeros + values.reverse()) by {
                    assert forall|t: int| 0 <= t < bits@.len() implies condition_values(
                        after,
                        witness,
                        bits@,
                    )[t] == (zeros + values.reverse())[t] by {
                        let s = padded.len() - 1 - t;
                        assert(bits@[t] == padded[s]);
                        if s < given.len() {
                            let b = given[s];
                            assert(padded[s] == b);
                            assert(t >= count);
                            assert((zeros + values.reverse())[t] == values.reverse()[t - count]);
                            assert(values.reverse()[t - count] == values[s]);
                            if b.cell < before.len() {
                                assert(after[b.cell as int] == before[b.cell as int]);
                            } else if b.cell < after.len() {
                                assert(after[b.cell as int] == zero_gates(count)[b.cell
                                    - before.len()]);
                            }
                            assert(condition_value(after, witness, b) == condition_value(
                                before,
                                witness,
                                b,
                            ));
                        } else {
                            assert(padded[s] == constants_at(first, count)[s - given.len()]);
                            assert(after[first + (s - given.len())] == zero_gates(count)[s
                                - given.len()]);
                            assert(t < count);
                        }
                    }
                }
                lemma_be_value_leading_zeros(count, values.reverse());
            }
        }
    }

    /// Cuts `bits` into windows of `window_size` bits each, in their order.
    pub fn window(bits: Vec<AssignedCondition>, window_size: usize) -> (windowed: Windowed)
        requires
            window_size > 0,
            bits@.len() % (window_size as nat) == 0,
        ensures
            windowed@ == chunks(bits@, window_size as nat),
            windowed@.len() == bits@.len() / (window_size as nat),
            forall|i: int|
                0 <= i < windowed@.len() ==> #[trigger] windowed@[i] == bits@.subrange(
                    i * window_size,
                    (i + 1) * window_size,
                ),
    {
        let number_of_windows = bits.len() / window_size;
        proof {
            assert(bits@.len() <= usize::MAX);
            vstd::arithmetic::div_mod::lemma_fundamental_div_mod(
                bits@.len() as int,
                window_size as int,
            );
        }
        let mut selectors: Vec<Selector> = Vec::new();
        let mut i: usize = 0;
        while i < number_of_windows
            invariant
                i <= number_of_windows,
                window_size > 0,
                bits@.len() == window_size * number_of_windows,
                bits@.len() <= usize::MAX,
                selectors@.len() == i,
                forall|t: int|
                    0 <= t < i ==> (#[trigger] selectors@[t])@ == bits@.subrange(
                        t * window_size,
                        (t + 1) * window_size,
                    ),
            decreases number_of_windows - i,
        {
            proof {
                assert((i + 1) * window_size <= number_of_windows * window_size)
                    by (nonlinear_arith)
                    requires
                        i + 1 <= number_of_windows,
                ;
                assert((i + 1) * window_size == i * window_size + window_size)
                    by (nonlinear_arith);
                assert(0 <= i * window_size) by (nonlinear_arith);
                assert(i * window_size + window_size <= bits@.len());
                assert(window_size * number_of_windows == number_of_windows * window_size)
                    by (nonlinear_arith);
            }
            let start = i * window_size;
            let mut selector: Vec<AssignedCondition> = Vec::new();
            let mut j: usize = 0;
            while j < window_size
                invariant
                    j <= window_size,
                    start + window_size <= bits@.len(),
                    bits@.len() <= usize::MAX,
                    selector@ == bits@.subrange(start as int, start + j),
                decreases window_size - j,
            {
                selector.push(bits[start + j]);
                proof {
                    assert(selector@ =~= bits@.subrange(start as int, start + j + 1));
                }
                j = j + 1;
            }
            selectors.push(Selector(selector));
            i = i + 1;
        }
        let windowed = Windowed(selectors);
        proof {
            assert(windowed@.len() == number_of_windows);
            assert forall|t: int| 0 <= t < windowed@.len() implies #[trigger] windowed@[t]
                == bits@.subrange(t * window_size, (t + 1) * window_size) by {
                assert(windowed@[t] == selectors@[t]@);
            }
            assert(windowed@ =~= chunks(bits@, window_size as nat));
        }
        windowed
    }

    /// Decomposes `scalar` into its bits, least significant first.
    pub(crate) fn bits_of(&self, region: &mut Region, scalar: &AssignedInteger) -> (result: Result<
        Vec<AssignedCondition>,
        Error,
    >)
        ensures
            extends(final(region)@, old(region)@),
            old(region).wf() ==> final(region).wf(),
            match result {
                Ok(bits) => {
                    &&& old(region).has_integer(*scalar)
                    &&& final(region)@ == old(region)@.push(
                        Gate::Decompose { integer: *scalar, bits: self.bits() as usize },
                    )
                    &&& bits@ == decomposed_bits(old(region)@.len(), self.bits())
                    &&& final(region)@.len() == old(region)@.len() + 1
                    &&& bits@.len() == self.bits()
                    &&& spells_reversed(final(region)@, bits@, *scalar, self.bits())
                },
                Err(e) => {
                    &&& !old(region).has_integer(*scalar)
                    &&& e == Error::UnknownCell
                    &&& final(region)@ == old(region)@
                },
            },
    {
        let ghost before = region@;
        let ghost width = self.bits();
        proof {
            lemma_extends_self(before);
            region.lemma_offset_fits();
        }
        let bits = region.decompose(scalar, self.scalar_bits())?;
        proof {
            lemma_decomposed(before, *scalar, self.bits() as usize);
            assert(bits@ =~= decomposed_bits(before.len(), width));
            lemma_extends_push(before, Gate::Decompose { integer: *scalar, bits: width as usize });
        }
        Ok(bits)
    }

    /// Pads the bits of `scalar`, which come least significant first, and cuts them into
    /// windows.
    pub(crate) fn pad_and_window(
        &self,
        region: &mut Region,
        bits: Vec<AssignedCondition>,
        window_size: usize,
        Ghost(scalar): Ghost<AssignedInteger>,
    ) -> (windowed: Windowed)
        requires
            window_size > 0,
            bits@.len() == self.bits(),
            spells_reversed(old(region)@, bits@, scalar, self.bits()),
        ensures
            extends(final(region)@, old(region)@),
            final(region)@ == old(region)@ + zero_gates(padding(self.bits(), window_size as nat)),
            windowed@ == chunks(
                (bits@ + constants_at(
                    old(region)@.len(),
                    padding(self.bits(), window_size as nat),
                )).reverse(),
                window_size as nat,
            ),
            final(region)@.len() == old(region)@.len() + padding(self.bits(), window_size as nat),
            old(region).wf() ==> final(region).wf(),
            scalar_ready(
                final(region)@,
                windowed@,
                scalar,
                window_size as nat,
                window_count(self.bits(), window_size as nat),
                self.bits(),
            ),
    {
        let ghost before = region@;
        let ghost width = self.bits();
        let ghost window = window_size as nat;
        let ghost given = bits@;
        proof {
            lemma_padding(width, window);
        }
        let mut bits = bits;
        self.pad(region, &mut bits, window_size);
        let ghost padded = bits@;
        let ghost after = region@;
        proof {
            lemma_padded_spells(before, after, given, padded, scalar, width);
        }
        let windowed = Self::window(bits, window_size);
        proof {
            vstd::arithmetic::div_mod::lemma_fundamental_div_mod(
                padded.len() as int,
                window_size as int,
            );
            assert(windowed@.len() * window == padded.len()) by (nonlinear_arith)
                requires
                    padded.len() == window * (padded.len() / window) + padded.len() % window,
                    padded.len() % window == 0,
                    windowed@.len() == padded.len() / window,
            ;
            assert(windowed@.len() == window_count(width, window));
            lemma_scalar_ready(after, padded, windowed@, scalar, window, width);
        }
        windowed
    }

    /// Decomposes `scalar`, pads its bits and cuts them into windows.
    pub(crate) fn windows_of(&self, region: &mut Region, scalar: &AssignedInteger, window_size: usize) -> (result:
        Result<Windowed, Error>)
        requires
            window_size > 0,
        ensures
            extends(final(region)@, old(region)@),
            old(region).wf() ==> final(region).wf(),
            match result {
                Ok(windowed) => {
                    &&& old(region).has_integer(*scalar)
                    &&& final(region)@ == old(region)@.push(
                        Gate::Decompose { integer: *scalar, bits: self.bits() as usize },
                    ) + zero_gates(padding(self.bits(), window_size as nat))
                    &&& windowed@ == chunks(
                        padded_bits(
                            old(region)@.len(),
                            old(region)@.len() + 1,
                            self.bits(),
                            window_size as nat,
                        ),
                        window_size as nat,
                    )
                    &&& final(region)@.len() == old(region)@.len() + 1 + padding(
                        self.bits(),
                        window_size as nat,
                    )
                    &&& scalar_ready(
                        final(region)@,
                        windowed@,
                        *scalar,
                        window_size as nat,
                        window_count(self.bits(), window_size as nat),
                        self.bits(),
                    )
                },
                Err(e) => {
                    &&& !old(region).has_integer(*scalar)
                    &&& e == Error::UnknownCell
                    &&& final(region)@ == old(region)@
                },
            },
    {
        let ghost before = region@;
        let bits = self.bits_of(region, scalar)?;
        let ghost middle = region@;
        let windowed = self.pad_and_window(region, bits, window_size, Ghost(*scalar));
        proof {
            lemma_extends_chain(before, middle, region@);
            region.lemma_offset_fits();
        }
        Ok(windowed)
    }

    /// Decomposes the scalar of every pair, in the order of the pairs.
    pub(crate) fn decompose_all(&self, region: &mut Region, pairs: &Vec<(AssignedPoint, AssignedInteger)>) -> (result:
        Result<Vec<Vec<AssignedCondition>>, Error>)
        requires
            pairs_known(old(region)@, pairs@),
        ensures
            extends(final(region)@, old(region)@),
            final(region)@.len() == old(region)@.len() + pairs@.len(),
            final(region)@ == old(region)@ + decompositions(pairs@, self.bits()),
            old(region).wf() ==> final(region).wf(),
            result is Ok,
            result matches Ok(decomposed) ==> {
                &&& decomposed@.len() == pairs@.len()
                &&& forall|t: int|
                    0 <= t < pairs@.len() ==> (#[trigger] decomposed@[t])@.len() == self.bits()
                        && decomposed@[t]@ == decomposed_bits(
                        (old(region)@.len() + t) as nat,
                        self.bits(),
                    ) && spells_reversed(
                        final(region)@,
                        decomposed@[t]@,
                        pairs@[t].1,
                        self.bits(),
                    )
            },
    {
        let ghost before = region@;
        proof {
            lemma_extends_self(before);
        }
        let mut decomposed: Vec<Vec<AssignedCondition>> = Vec::new();
        let mut t: usize = 0;
        proof {
            assert(before + decompositions(pairs@.take(0), self.bits()) =~= before);
        }
        while t < pairs.len()
            invariant
                t <= pairs@.len(),
                decomposed@.len() == t,
                before == old(region)@,
                pairs_known(before, pairs@),
                extends(region@, before),
                region@.len() == before.len() + t,
                region@ == before + decompositions(pairs@.take(t as int), self.bits()),
                old(region).wf() ==> region.wf(),
                forall|s: int|
                    0 <= s < t ==> (#[trigger] decomposed@[s])@.len() == self.bits()
                        && decomposed@[s]@ == decomposed_bits(
                        (before.len() + s) as nat,
                        self.bits(),
                    ) && spells_reversed(region@, decomposed@[s]@, pairs@[s].1, self.bits()),
            decreases pairs@.len() - t,
        {
            let ghost current = region@;
            let ghost done = decomposed@;
            proof {
                lemma_persist(before, current);
                assert(names_integer(before, pairs@[t as int].1));
            }
            let bits = self.bits_of(region, &pairs[t].1)?;
            decomposed.push(bits);
            proof {
                lemma_extends_chain(before, current, region@);
                assert(region@ =~= before + decompositions(pairs@.take(t + 1), self.bits()));
                assert forall|s: int| 0 <= s < t + 1 implies (#[trigger] decomposed@[s])@.len()
                    == self.bits() && decomposed@[s]@ == decomposed_bits(
                    (before.len() + s) as nat,
                    self.bits(),
                ) && spells_reversed(region@, decomposed@[s]@, pairs@[s].1, self.bits()) by {
                    if s < t {
                        assert(decomposed@[s] == done[s]);
                        lemma_spells_reversed_persists(
                            current,
                            region@,
                            done[s]@,
                            pairs@[s].1,
                            self.bits(),
                        );
                    }
                }
            }
            t = t + 1;
        }
        proof {
            assert(pairs@.take(pairs@.len() as int) =~= pairs@);
        }
        Ok(decomposed)
    }

    /// Pads the bits of every scalar and cuts them into windows, in the order of the
    /// pairs.
    pub(crate) fn window_all(
        &self,
        region: &mut Region,
        decomposed: &Vec<Vec<AssignedCondition>>,
        window_size: usize,
        Ghost(pairs): Ghost<Seq<(AssignedPoint, AssignedInteger)>>,
    ) -> (windowed: Vec<Windowed>)
        requires
            window_size > 0,
            decomposed@.len() == pairs.len(),
            forall|t: int|
                0 <= t < pairs.len() ==> (#[trigger] decomposed@[t])@.len() == self.bits()
                    && spells_reversed(old(region)@, decomposed@[t]@, pairs[t].1, self.bits()),
        ensures
            extends(final(region)@, old(region)@),
            final(region)@.len() == old(region)@.len() + pairs.len() * padding(
                self.bits(),
                window_size as nat,
            ),
            old(region).wf() ==> final(region).wf(),
            final(region)@ == old(region)@ + zero_gates(
                pairs.len() * padding(self.bits(), window_size as nat),
            ),
            forall|t: int|
                0 <= t < pairs.len() ==> (#[trigger] windowed@[t])@ == chunks(
                    (decomposed@[t]@ + constants_at(
                        (old(region)@.len() + t * padding(self.bits(), window_size as nat)) as nat,
                        padding(self.bits(), window_size as nat),
                    )).reverse(),
                    window_size as nat,
                ),
            windowed@.len() == pairs.len(),
            forall|t: int|
                0 <= t < pairs.len() ==> scalar_ready(
                    final(region)@,
                    (#[trigger] windowed@[t])@,
                    pairs[t].1,
                    window_size as nat,
                    window_count(self.bits(), window_size as nat),
                    self.bits(),
                ),
    {
        let ghost before = region@;
        let ghost window = window_size as nat;
        let ghost m = window_count(self.bits(), window);
        proof {
            lemma_extends_self(before);
        }
        let mut windowed: Vec<Windowed> = Vec::new();
        let mut t: usize = 0;
        proof {
            assert(0 * padding(self.bits(), window) == 0);
            assert(before + zero_gates(0) =~= before);
        }
        while t < decomposed.len()
            invariant
                t <= decomposed@.len(),
                decomposed@.len() == pairs.len(),
                windowed@.len() == t,
                window_size > 0,
                window == window_size,
                m == window_count(self.bits(), window),
                before == old(region)@,
                extends(region@, before),
                region@.len() == before.len() + t * padding(self.bits(), window),
                region@ == before + zero_gates((t * padding(self.bits(), window)) as nat),
                forall|s: int|
                    0 <= s < t ==> (#[trigger] windowed@[s])@ == chunks(
                        (decomposed@[s]@ + constants_at(
                            (before.len() + s * padding(self.bits(), window)) as nat,
                            padding(self.bits(), window),
                        )).reverse(),
                        window,
                    ),
                old(region).wf() ==> region.wf(),
                forall|s: int|
                    0 <= s < pairs.len() ==> (#[trigger] decomposed@[s])@.len() == self.bits()
                        && spells_reversed(before, decomposed@[s]@, pairs[s].1, self.bits()),
                forall|s: int|
                    0 <= s < t ==> scalar_ready(
                        region@,
                        (#[trigger] windowed@[s])@,
                        pairs[s].1,
                        window,
                        m,
                        self.bits(),
                    ),
            decreases decomposed@.len() - t,
        {
            let ghost current = region@;
            let ghost done = windowed@;
            let bits = copied(&decomposed[t]);
            proof {
                assert(spells_reversed(before, decomposed@[t as int]@, pairs[t as int].1, self.bits()));
                lemma_spells_reversed_persists(
                    before,
                    current,
                    bits@,
                    pairs[t as int].1,
                    self.bits(),
                );
            }
            let windows = self.pad_and_window(region, bits, window_size, Ghost(pairs[t as int].1));
            windowed.push(windows);
            proof {
                let k = padding(self.bits(), window);
                assert((t + 1) * k == t * k + k) by (nonlinear_arith);
                assert(t * k >= 0) by (nonlinear_arith)
                    requires
                        t >= 0,
                        k >= 0,
                ;
                assert(region@ =~= before + zero_gates(((t + 1) * k) as nat));
                assert forall|s: int| 0 <= s < t + 1 implies (#[trigger] windowed@[s])@ == chunks(
                    (decomposed@[s]@ + constants_at((before.len() + s * k) as nat, k)).reverse(),
                    window,
                ) by {
                    if s < t {
                        assert(windowed@[s] == done[s]);
                    }
                }
                lemma_extends_chain(before, current, region@);
                assert forall|s: int| 0 <= s < t + 1 implies scalar_ready(
                    region@,
                    (#[trigger] windowed@[s])@,
                    pairs[s].1,
                    window,
                    m,
                    self.bits(),
                ) by {
                    if s < t {
                        assert(windowed@[s] == done[s]);
                        lemma_scalar_ready_persists(
                            current,
                            region@,
                            done[s]@,
                            pairs[s].1,
                            window,
                            m,
                            self.bits(),
                        );
                    }
                }
            }
            t = t + 1;
        }
        windowed
    }
}

} // verus!
