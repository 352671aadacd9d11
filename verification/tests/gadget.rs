//! The gadget, run: the recorded operations are carried out on small groups and the
//! results are compared with plain additions.

use general_ecc::ecc::general_ecc::GeneralEccChip;
use general_ecc::ecc::{Selector, Table};
use general_ecc::error::Error;
use general_ecc::region::{AssignedCondition, AssignedInteger, AssignedPoint, Gate, Region};
use std::collections::HashMap;

/// A point of a curve `y^2 = x^3 + b` over the integers modulo `p`, or a residue modulo
/// `p` under addition.
#[derive(Clone, Copy, Debug, PartialEq, Eq, Hash)]
enum Pt {
    Infinity,
    Affine(u64, u64),
}

/// The group that the operations are carried out in.
#[derive(Clone, Copy)]
enum Group {
    /// The curve `y^2 = x^3 + b` modulo `p`.
    Curve { p: u64, b: u64 },
    /// The residues modulo `q` under addition, a residue `r` written `Affine(r, 0)` and
    /// zero written `Infinity`.
    Residues { q: u64 },
}

fn mul_mod(a: u64, b: u64, p: u64) -> u64 {
    ((a as u128 * b as u128) % p as u128) as u64
}

fn pow_mod(mut base: u64, mut e: u64, p: u64) -> u64 {
    let mut acc = 1u64;
    base %= p;
    while e > 0 {
        if e & 1 == 1 {
            acc = mul_mod(acc, base, p);
        }
        base = mul_mod(base, base, p);
        e >>= 1;
    }
    acc
}

fn inv_mod(a: u64, p: u64) -> u64 {
    pow_mod(a, p - 2, p)
}

impl Group {
    fn neg(&self, a: Pt) -> Pt {
        match (*self, a) {
            (_, Pt::Infinity) => Pt::Infinity,
            (Group::Curve { p, .. }, Pt::Affine(x, y)) => Pt::Affine(x, (p - y) % p),
            (Group::Residues { q }, Pt::Affine(r, _)) => Pt::Affine(q - r, 0),
        }
    }

    fn add(&self, a: Pt, b: Pt) -> Pt {
        match *self {
            Group::Residues { q } => {
                let r = |v: Pt| match v {
                    Pt::Infinity => 0u64,
                    Pt::Affine(r, _) => r,
                };
                let s = ((r(a) as u128 + r(b) as u128) % q as u128) as u64;
                if s == 0 {
                    Pt::Infinity
                } else {
                    Pt::Affine(s, 0)
                }
            }
            Group::Curve { p, .. } => match (a, b) {
                (Pt::Infinity, _) => b,
                (_, Pt::Infinity) => a,
                (Pt::Affine(x1, y1), Pt::Affine(x2, y2)) => {
                    if x1 == x2 && (y1 + y2) % p == 0 {
                        return Pt::Infinity;
                    }
                    let lambda = if x1 == x2 {
                        mul_mod(mul_mod(3, mul_mod(x1, x1, p), p), inv_mod(2 * y1 % p, p), p)
                    } else {
                        mul_mod((y2 + p - y1) % p, inv_mod((x2 + p - x1) % p, p), p)
                    };
                    let x3 = (mul_mod(lambda, lambda, p) + 2 * p - x1 - x2) % p;
                    let y3 = (mul_mod(lambda, (x1 + p - x3) % p, p) + p - y1) % p;
                    Pt::Affine(x3, y3)
                }
            },
        }
    }

    /// `n · a`, by `n` plain additions.
    fn times(&self, n: u64, a: Pt) -> Pt {
        let mut acc = Pt::Infinity;
        for _ in 0..n {
            acc = self.add(acc, a);
        }
        acc
    }

    /// `n · a`, by doubling and adding.
    fn scale(&self, mut n: u128, a: Pt) -> Pt {
        let mut acc = Pt::Infinity;
        let mut base = a;
        while n > 0 {
            if n & 1 == 1 {
                acc = self.add(acc, base);
            }
            base = self.add(base, base);
            n >>= 1;
        }
        acc
    }

    /// Whether the addition formulas of a constraint system are undefined on `a + b`.
    fn exceptional(&self, a: Pt, b: Pt) -> bool {
        a == Pt::Infinity || b == Pt::Infinity || a == b || a == self.neg(b)
    }

    /// Some points of the group, found by search.
    fn some_points(&self, count: usize) -> Vec<Pt> {
        let mut found = Vec::new();
        match *self {
            Group::Residues { q } => {
                let mut r = 0x9e37_79b9_7f4a_7c15u64 % q;
                while found.len() < count {
                    found.push(Pt::Affine(r, 0));
                    r = mul_mod(r, 0x5851_f42d_4c95_7f2d % q, q) + 1;
                }
            }
            Group::Curve { p, b } => {
                let mut x = 1u64;
                while found.len() < count {
                    let rhs = (mul_mod(mul_mod(x, x, p), x, p) + b) % p;
                    if let Some(y) = (1..p).find(|y| mul_mod(*y, *y, p) == rhs) {
                        found.push(Pt::Affine(x, y));
                    }
                    x += 1;
                }
            }
        }
        found
    }
}

const CURVE: Group = Group::Curve { p: 10007, b: 3 };
/// The residues modulo the prime `2^62 - 57`.
const RESIDUES: Group = Group::Residues { q: 4611686018427387847 };

/// What the prover supplies: a value for each point and each integer that was assigned.
struct Witness {
    points: HashMap<usize, Pt>,
    integers: HashMap<usize, u128>,
}

impl Witness {
    fn new() -> Witness {
        Witness { points: HashMap::new(), integers: HashMap::new() }
    }

    fn point(&mut self, region: &mut Region, value: Pt) -> AssignedPoint {
        let p = region.assign_point();
        self.points.insert(p.cell, value);
        p
    }

    fn integer(&mut self, region: &mut Region, value: u128) -> AssignedInteger {
        let n = region.assign_integer();
        self.integers.insert(n.cell, value);
        n
    }
}

fn gates(region: &Region) -> Vec<Gate> {
    (0..region.offset()).map(|row| region.gate(row).unwrap()).collect()
}

fn bit(gates: &[Gate], witness: &Witness, cond: AssignedCondition) -> bool {
    match gates[cond.cell] {
        Gate::Constant { bit } => bit,
        Gate::Decompose { integer, .. } => (witness.integers[&integer.cell] >> cond.position) & 1 == 1,
        _ => panic!("no bit in row {}", cond.cell),
    }
}

/// The number that `bits` spell, most significant bit first.
fn be_value(gates: &[Gate], witness: &Witness, bits: &[AssignedCondition]) -> u128 {
    bits.iter().fold(0u128, |acc, b| 2 * acc + bit(gates, witness, *b) as u128)
}

/// Carries out the recorded operations. Returns the point of each row that holds one,
/// and the number of additions on which incomplete formulas are undefined.
fn run(group: &Group, region: &Region, witness: &Witness) -> (Vec<Option<Pt>>, usize) {
    let gates = gates(region);
    let mut values: Vec<Option<Pt>> = Vec::new();
    let mut exceptional = 0;
    for (row, gate) in gates.iter().enumerate() {
        let value = match *gate {
            Gate::Point => Some(witness.points[&row]),
            Gate::Integer | Gate::Constant { .. } | Gate::Decompose { .. } => None,
            Gate::Add { a, b } => {
                let (a, b) = (values[a.cell].unwrap(), values[b.cell].unwrap());
                if group.exceptional(a, b) {
                    exceptional += 1;
                }
                Some(group.add(a, b))
            }
            Gate::Double { a } => {
                let a = values[a.cell].unwrap();
                Some(group.add(a, a))
            }
            Gate::DoubleN { a, n } => {
                let mut a = values[a.cell].unwrap();
                for _ in 0..n {
                    a = group.add(a, a);
                }
                Some(a)
            }
            Gate::Select { cond, a, b } => {
                if bit(&gates, witness, cond) {
                    values[a.cell]
                } else {
                    values[b.cell]
                }
            }
            Gate::Ladder { acc, addend } => {
                let (acc, addend) = (values[acc.cell].unwrap(), values[addend.cell].unwrap());
                let sum = group.add(acc, addend);
                if group.exceptional(acc, addend) || group.exceptional(sum, acc) {
                    exceptional += 1;
                }
                Some(group.add(sum, acc))
            }
        };
        values.push(value);
    }
    (values, exceptional)
}

/// `1 + 2^w + ... + 2^((m - 1) w)` times `2^pairs - 1`, for the `m` windows that
/// `bits` bits need.
fn blind_factor(bits: usize, window: usize, pairs: usize) -> u128 {
    let windows = (bits + window - 1) / window;
    let mut repunit = 0u128;
    for _ in 0..windows {
        repunit = (repunit << window) + 1;
    }
    repunit * ((1u128 << pairs) - 1)
}

/// A chip with its auxiliary points assigned for one window size and batch size, the
/// generator holding `aux`.
fn chip_with_aux(
    group: &Group,
    region: &mut Region,
    witness: &mut Witness,
    bits: usize,
    window: usize,
    pairs: usize,
    aux: Pt,
) -> GeneralEccChip {
    let mut chip = GeneralEccChip::new(bits);
    let to_add = chip.assign_aux_generator(region);
    witness.points.insert(to_add.cell, aux);
    chip.assign_aux(region, window, pairs).unwrap();
    let to_sub = chip.get_mul_aux(window, pairs).unwrap().to_sub;
    let blind = group.scale(blind_factor(bits, window, pairs), aux);
    witness.points.insert(to_sub.cell, group.neg(blind));
    chip
}

/// Multiplies `point` by `scalar` through the gadget and carries the operations out.
fn multiply(group: &Group, bits: usize, window: usize, aux: Pt, point: Pt, scalar: u128) -> (Pt, usize) {
    let mut region = Region::new();
    let mut witness = Witness::new();
    let chip = chip_with_aux(group, &mut region, &mut witness, bits, window, 1, aux);
    let p = witness.point(&mut region, point);
    let s = witness.integer(&mut region, scalar);
    let product = chip.mul(&mut region, &p, &s, window).unwrap();
    let (values, exceptional) = run(group, &region, &witness);
    (values[product.cell].unwrap(), exceptional)
}

/// Multiplies a batch through the gadget and carries the operations out.
fn multiply_batch(group: &Group, bits: usize, window: usize, aux: Pt, pairs: &[(Pt, u128)]) -> (Pt, usize) {
    let mut region = Region::new();
    let mut witness = Witness::new();
    let chip = chip_with_aux(group, &mut region, &mut witness, bits, window, pairs.len(), aux);
    let assigned: Vec<(AssignedPoint, AssignedInteger)> = pairs
        .iter()
        .map(|(point, scalar)| {
            let p = witness.point(&mut region, *point);
            let s = witness.integer(&mut region, *scalar);
            (p, s)
        })
        .collect();
    let sum = chip.mul_batch_1d_horizontal(&mut region, assigned, window).unwrap();
    let (values, exceptional) = run(group, &region, &witness);
    (values[sum.cell].unwrap(), exceptional)
}

#[test]
fn mul_by_five_with_window_one_is_five_additions() {
    let points = CURVE.some_points(2);
    let (aux, p) = (points[0], points[1]);
    let expected = CURVE.add(CURVE.add(CURVE.add(CURVE.add(p, p), p), p), p);
    let (product, _) = multiply(&CURVE, 14, 1, aux, p, 5);
    assert_eq!(product, expected);
    assert_ne!(product, p);
}

#[test]
fn batch_of_two_pairs_with_window_two() {
    let points = CURVE.some_points(3);
    let (aux, first, second) = (points[0], points[1], points[2]);
    let expected = CURVE.add(CURVE.times(3, first), CURVE.times(2, second));
    let (sum, _) = multiply_batch(&CURVE, 14, 2, aux, &[(first, 3), (second, 2)]);
    assert_eq!(sum, expected);
}

#[test]
fn mul_is_the_plain_multiple_for_every_window_size() {
    let points = CURVE.some_points(4);
    let aux = points[0];
    for window in [1usize, 2, 3, 4, 8] {
        for p in &points[1..] {
            for scalar in [0u128, 1, 2, 5, 77, 1000, 8191, 16383] {
                let (product, _) = multiply(&CURVE, 14, window, aux, *p, scalar);
                assert_eq!(product, CURVE.times(scalar as u64, *p), "window {window}, scalar {scalar}");
            }
        }
    }
}

#[test]
fn mul_is_the_plain_multiple_of_residues() {
    let points = RESIDUES.some_points(2);
    let (aux, p) = (points[0], points[1]);
    for window in [1usize, 2, 3, 4, 8] {
        for scalar in [1u128, 3, 0xdead_beef, (1u128 << 62) - 58, (1u128 << 61) + 12345] {
            let (product, _) = multiply(&RESIDUES, 62, window, aux, p, scalar);
            assert_eq!(product, RESIDUES.scale(scalar, p), "window {window}, scalar {scalar}");
        }
    }
}

#[test]
fn batch_is_the_sum_of_the_plain_multiples() {
    let points = CURVE.some_points(5);
    let aux = points[0];
    let cases: Vec<Vec<(Pt, u128)>> = vec![
        vec![(points[1], 9)],
        vec![(points[1], 0), (points[2], 0)],
        vec![(points[1], 1234), (points[2], 4321), (points[3], 16383)],
        vec![(points[1], 1), (points[2], 2), (points[3], 3), (points[4], 4)],
        vec![(points[1], 100), (points[1], 200)],
    ];
    for window in [1usize, 2, 3, 4, 8] {
        for pairs in &cases {
            let expected = pairs
                .iter()
                .fold(Pt::Infinity, |acc, (p, s)| CURVE.add(acc, CURVE.times(*s as u64, *p)));
            let (sum, _) = multiply_batch(&CURVE, 14, window, aux, pairs);
            assert_eq!(sum, expected, "window {window}, {} pairs", pairs.len());
        }
    }
}

#[test]
fn mul_of_one_window_needs_no_doubling() {
    let points = CURVE.some_points(2);
    for (bits, window) in [(4usize, 4usize), (3, 5), (1, 1)] {
        for scalar in 0..(1u128 << bits) {
            let (product, _) = multiply(&CURVE, bits, window, points[0], points[1], scalar);
            assert_eq!(product, CURVE.times(scalar as u64, points[1]), "bits {bits}, scalar {scalar}");
        }
    }
    let mut region = Region::new();
    let mut chip = GeneralEccChip::new(3);
    chip.assign_aux_generator(&mut region);
    chip.assign_aux(&mut region, 3, 1).unwrap();
    let point = region.assign_point();
    let scalar = region.assign_integer();
    chip.mul(&mut region, &point, &scalar, 3).unwrap();
    let all = gates(&region);
    assert_eq!(all.len(), 4 + 1 + 7 + 7 + 1);
    assert!(all.iter().all(|g| !matches!(g, Gate::DoubleN { .. } | Gate::Ladder { .. })));
}

#[test]
fn multiplications_take_the_rows_that_their_windows_need() {
    let mut region = Region::new();
    let mut chip = GeneralEccChip::new(14);
    chip.assign_aux_generator(&mut region);
    chip.assign_aux(&mut region, 3, 1).unwrap();
    chip.assign_aux(&mut region, 3, 2).unwrap();
    let point = region.assign_point();
    let scalar = region.assign_integer();
    let before = region.offset();
    chip.mul(&mut region, &point, &scalar, 3).unwrap();
    assert_eq!(region.offset() - before, 53);
    let before = region.offset();
    chip.mul_batch_1d_horizontal(&mut region, vec![(point, scalar), (point, scalar)], 3).unwrap();
    assert_eq!(region.offset() - before, 103);
}

#[test]
fn batch_of_one_window_needs_no_doubling() {
    let points = CURVE.some_points(3);
    let (sum, _) = multiply_batch(&CURVE, 4, 4, points[0], &[(points[1], 11), (points[2], 7)]);
    assert_eq!(sum, CURVE.add(CURVE.times(11, points[1]), CURVE.times(7, points[2])));
}

#[test]
fn padding_keeps_the_value_of_the_scalar() {
    let modulus_minus_one = (1u128 << 61) - 2;
    for window in [1usize, 2, 3, 4, 8, 61] {
        for value in [0u128, 1, modulus_minus_one, 0x0123_4567_89ab_cdef] {
            let mut region = Region::new();
            let mut witness = Witness::new();
            let chip = GeneralEccChip::new(61);
            let scalar = witness.integer(&mut region, value);
            let mut bits = region.decompose(&scalar, 61).unwrap();
            chip.pad(&mut region, &mut bits, window);
            let padded = (61 + window - 1) / window * window;
            assert_eq!(bits.len(), padded);
            assert_eq!(be_value(&gates(&region), &witness, &bits), value);
            assert_eq!(region.offset(), 2 + padded - 61);
        }
    }
}

#[test]
fn padding_is_no_operation_where_the_window_divides_the_width() {
    let mut region = Region::new();
    let chip = GeneralEccChip::new(12);
    let scalar = region.assign_integer();
    let mut bits = region.decompose(&scalar, 12).unwrap();
    let before = bits.clone();
    chip.pad(&mut region, &mut bits, 4);
    assert_eq!(region.offset(), 2);
    let turned: Vec<AssignedCondition> = before.into_iter().rev().collect();
    assert_eq!(bits, turned);
}

#[test]
fn padding_puts_zero_constants_in_front() {
    let mut region = Region::new();
    let chip = GeneralEccChip::new(13);
    let scalar = region.assign_integer();
    let mut bits = region.decompose(&scalar, 13).unwrap();
    chip.pad(&mut region, &mut bits, 4);
    assert_eq!(bits.len(), 16);
    assert_eq!(region.offset(), 5);
    assert_eq!(bits[0], AssignedCondition { cell: 4, position: 0 });
    assert_eq!(bits[1], AssignedCondition { cell: 3, position: 0 });
    assert_eq!(bits[2], AssignedCondition { cell: 2, position: 0 });
    assert_eq!(bits[3], AssignedCondition { cell: 1, position: 12 });
    assert_eq!(bits[15], AssignedCondition { cell: 1, position: 0 });
    for row in 2..5 {
        assert_eq!(region.gate(row), Some(Gate::Constant { bit: false }));
    }
}

#[test]
fn windows_are_consecutive_chunks() {
    let bits: Vec<AssignedCondition> =
        (0..12).map(|i| AssignedCondition { cell: 7, position: i }).collect();
    let windowed = GeneralEccChip::window(bits.clone(), 3);
    assert_eq!(windowed.0.len(), 4);
    for (i, selector) in windowed.0.iter().enumerate() {
        assert_eq!(selector.0, bits[3 * i..3 * i + 3].to_vec());
    }
}

#[test]
fn select_multi_picks_the_addressed_entry() {
    for k in 1usize..=4 {
        let entries = CURVE.some_points(1 << k);
        for pattern in 0usize..(1 << k) {
            let mut region = Region::new();
            let mut witness = Witness::new();
            let chip = GeneralEccChip::new(14);
            let table = Table(entries.iter().map(|e| witness.point(&mut region, *e)).collect());
            let selector = Selector(
                (0..k).map(|i| region.assign_constant((pattern >> (k - 1 - i)) & 1 == 1)).collect(),
            );
            let before = region.offset();
            let picked = chip.select_multi(&mut region, &selector, &table).unwrap();
            assert_eq!(region.offset(), before + (1 << k) - 1);
            let (values, _) = run(&CURVE, &region, &witness);
            assert_eq!(values[picked.cell], Some(entries[pattern]), "k {k}, pattern {pattern}");
        }
    }
}

#[test]
fn select_multi_with_an_empty_selector_returns_the_only_entry() {
    let mut region = Region::new();
    let chip = GeneralEccChip::new(14);
    let only = region.assign_point();
    let picked = chip.select_multi(&mut region, &Selector(vec![]), &Table(vec![only])).unwrap();
    assert_eq!(picked, only);
    assert_eq!(region.offset(), 1);
}

#[test]
fn select_multi_pairs_neighbours_and_reads_the_last_bit_first() {
    let mut region = Region::new();
    let chip = GeneralEccChip::new(14);
    let table = Table((0..4).map(|_| region.assign_point()).collect());
    let high = region.assign_constant(true);
    let low = region.assign_constant(false);
    chip.select_multi(&mut region, &Selector(vec![high, low]), &table).unwrap();
    let p = |cell: usize| AssignedPoint { cell };
    assert_eq!(region.gate(6), Some(Gate::Select { cond: low, a: p(1), b: p(0) }));
    assert_eq!(region.gate(7), Some(Gate::Select { cond: low, a: p(3), b: p(2) }));
    assert_eq!(region.gate(8), Some(Gate::Select { cond: high, a: p(7), b: p(6) }));
    assert_eq!(region.gate(9), None);
}

#[test]
fn table_entry_is_the_root_plus_a_multiple() {
    let points = CURVE.some_points(2);
    for k in 0usize..=4 {
        let mut region = Region::new();
        let mut witness = Witness::new();
        let chip = GeneralEccChip::new(14);
        let aux = witness.point(&mut region, points[0]);
        let point = witness.point(&mut region, points[1]);
        let table = chip.make_incremental_table(&mut region, &aux, &point, k).unwrap();
        assert_eq!(table.0.len(), 1 << k);
        assert_eq!(region.offset(), 2 + (1 << k) - 1);
        let (values, _) = run(&CURVE, &region, &witness);
        for (i, entry) in table.0.iter().enumerate() {
            let expected = CURVE.add(points[0], CURVE.times(i as u64, points[1]));
            assert_eq!(values[entry.cell], Some(expected), "k {k}, entry {i}");
        }
    }
}

#[test]
fn table_is_built_by_chained_additions() {
    let mut region = Region::new();
    let chip = GeneralEccChip::new(14);
    let aux = region.assign_point();
    let point = region.assign_point();
    let table = chip.make_incremental_table(&mut region, &aux, &point, 2).unwrap();
    assert_eq!(table.0, vec![aux, AssignedPoint { cell: 2 }, AssignedPoint { cell: 3 }, AssignedPoint { cell: 4 }]);
    assert_eq!(region.gate(2), Some(Gate::Add { a: aux, b: point }));
    assert_eq!(region.gate(3), Some(Gate::Add { a: AssignedPoint { cell: 2 }, b: point }));
    assert_eq!(region.gate(4), Some(Gate::Add { a: AssignedPoint { cell: 3 }, b: point }));
    assert_eq!(region.offset(), 5);
}

#[test]
fn result_does_not_depend_on_the_auxiliary_point() {
    let points = CURVE.some_points(6);
    let p = points[5];
    for window in [1usize, 3, 4] {
        let (first, _) = multiply(&CURVE, 14, window, points[0], p, 9999);
        let (second, _) = multiply(&CURVE, 14, window, points[3], p, 9999);
        assert_eq!(first, second);
        assert_eq!(first, CURVE.times(9999, p));
        let batch = [(points[4], 321u128), (p, 123u128)];
        let (first, _) = multiply_batch(&CURVE, 14, window, points[1], &batch);
        let (second, _) = multiply_batch(&CURVE, 14, window, points[2], &batch);
        assert_eq!(first, second);
    }
}

#[test]
fn blinding_stays_where_to_sub_does_not_cancel_it() {
    let points = RESIDUES.some_points(3);
    let (aux, p, other) = (points[0], points[1], points[2]);
    let mut region = Region::new();
    let mut witness = Witness::new();
    let mut chip = GeneralEccChip::new(8);
    let to_add = chip.assign_aux_generator(&mut region);
    witness.points.insert(to_add.cell, aux);
    chip.assign_aux(&mut region, 2, 1).unwrap();
    let to_sub = chip.get_mul_aux(2, 1).unwrap().to_sub;
    witness.points.insert(to_sub.cell, other);
    let point = witness.point(&mut region, p);
    let scalar = witness.integer(&mut region, 201);
    let product = chip.mul(&mut region, &point, &scalar, 2).unwrap();
    let (values, _) = run(&RESIDUES, &region, &witness);
    assert_eq!(blind_factor(8, 2, 1), 85);
    assert_eq!(blind_factor(8, 2, 2), 255);
    let expected = RESIDUES.add(RESIDUES.add(RESIDUES.scale(201, p), RESIDUES.scale(85, aux)), other);
    assert_eq!(values[product.cell], Some(expected));
}

#[test]
fn scalar_zero_gives_the_identity() {
    let points = CURVE.some_points(2);
    for window in [1usize, 2, 3, 4, 8] {
        let (product, _) = multiply(&CURVE, 14, window, points[0], points[1], 0);
        assert_eq!(product, Pt::Infinity);
    }
}

#[test]
fn largest_scalar_meets_no_exceptional_addition() {
    let q = 4611686018427387847u128;
    let points = RESIDUES.some_points(2);
    let (aux, p) = (points[0], points[1]);
    for window in [1usize, 2, 3, 4, 8] {
        let (product, exceptional) = multiply(&RESIDUES, 62, window, aux, p, q - 1);
        assert_eq!(product, RESIDUES.neg(p));
        assert_eq!(exceptional, 0, "window {window}");
    }
}

#[test]
fn mul_records_what_the_windows_ask_for() {
    let mut region = Region::new();
    let mut chip = GeneralEccChip::new(5);
    chip.assign_aux_generator(&mut region);
    chip.assign_aux(&mut region, 2, 1).unwrap();
    let point = region.assign_point();
    let scalar = region.assign_integer();
    let product = chip.mul(&mut region, &point, &scalar, 2).unwrap();
    let kinds: Vec<&str> = gates(&region)
        .iter()
        .map(|g| match g {
            Gate::Point => "point",
            Gate::Integer => "integer",
            Gate::Constant { .. } => "constant",
            Gate::Decompose { .. } => "decompose",
            Gate::Add { .. } => "add",
            Gate::Double { .. } => "double",
            Gate::DoubleN { .. } => "double_n",
            Gate::Select { .. } => "select",
            Gate::Ladder { .. } => "ladder",
        })
        .collect();
    let expected = [
        "point", "point", "point", "integer", "decompose", "constant", "add", "add", "add",
        "select", "select", "select", "double_n", "select", "select", "select", "add", "double_n",
        "select", "select", "select", "ladder", "add",
    ];
    assert_eq!(kinds, expected);
    assert_eq!(product.cell, 22);
    assert_eq!(region.gate(12), Some(Gate::DoubleN { a: AssignedPoint { cell: 11 }, n: 2 }));
    assert_eq!(region.gate(17), Some(Gate::DoubleN { a: AssignedPoint { cell: 16 }, n: 1 }));
    assert_eq!(
        region.gate(21),
        Some(Gate::Ladder { acc: AssignedPoint { cell: 17 }, addend: AssignedPoint { cell: 20 } })
    );
    assert_eq!(
        region.gate(22),
        Some(Gate::Add { a: AssignedPoint { cell: 21 }, b: AssignedPoint { cell: 1 } })
    );
}

#[test]
fn batch_doubles_the_root_between_the_tables() {
    let mut region = Region::new();
    let mut chip = GeneralEccChip::new(2);
    let to_add = chip.assign_aux_generator(&mut region);
    chip.assign_aux(&mut region, 1, 3).unwrap();
    let pairs: Vec<(AssignedPoint, AssignedInteger)> =
        (0..3).map(|_| (region.assign_point(), region.assign_integer())).collect();
    chip.mul_batch_1d_horizontal(&mut region, pairs.clone(), 1).unwrap();
    let all = gates(&region);
    for (row, pair) in pairs.iter().enumerate() {
        assert_eq!(all[8 + row], Gate::Decompose { integer: pair.1, bits: 2 });
    }
    assert_eq!(all[11], Gate::Add { a: to_add, b: pairs[0].0 });
    assert_eq!(all[12], Gate::Double { a: to_add });
    assert_eq!(all[13], Gate::Add { a: AssignedPoint { cell: 12 }, b: pairs[1].0 });
    assert_eq!(all[14], Gate::Double { a: AssignedPoint { cell: 12 } });
    assert_eq!(all[15], Gate::Add { a: AssignedPoint { cell: 14 }, b: pairs[2].0 });
    assert!(matches!(all[16], Gate::Select { .. }));
    let doubles = all.iter().filter(|g| matches!(g, Gate::Double { .. })).count();
    assert_eq!(doubles, 2);
    let shifts = all.iter().filter(|g| matches!(g, Gate::DoubleN { .. })).count();
    assert_eq!(shifts, 1);
    assert!(all.iter().all(|g| !matches!(g, Gate::Ladder { .. })));
}

#[test]
fn mul_without_auxiliary_points_is_a_synthesis_error() {
    let mut region = Region::new();
    let mut chip = GeneralEccChip::new(14);
    let point = region.assign_point();
    let scalar = region.assign_integer();
    assert_eq!(chip.mul(&mut region, &point, &scalar, 2), Err(Error::Synthesis));
    chip.assign_aux_generator(&mut region);
    assert_eq!(chip.mul(&mut region, &point, &scalar, 2), Err(Error::Synthesis));
    chip.assign_aux(&mut region, 2, 2).unwrap();
    chip.assign_aux(&mut region, 3, 1).unwrap();
    let rows = region.offset();
    assert_eq!(chip.mul(&mut region, &point, &scalar, 2), Err(Error::Synthesis));
    assert_eq!(
        chip.mul_batch_1d_horizontal(&mut region, vec![(point, scalar)], 2),
        Err(Error::Synthesis)
    );
    assert_eq!(region.offset(), rows);
    assert!(chip.mul(&mut region, &point, &scalar, 3).is_ok());
    assert!(chip
        .mul_batch_1d_horizontal(&mut region, vec![(point, scalar), (point, scalar)], 2)
        .is_ok());
}

#[test]
fn mul_of_unknown_cells_records_nothing() {
    let mut region = Region::new();
    let mut chip = GeneralEccChip::new(14);
    chip.assign_aux_generator(&mut region);
    chip.assign_aux(&mut region, 2, 1).unwrap();
    chip.assign_aux(&mut region, 2, 2).unwrap();
    let point = region.assign_point();
    let scalar = region.assign_integer();
    let rows = region.offset();
    let no_point = AssignedPoint { cell: scalar.cell };
    let no_scalar = AssignedInteger { cell: point.cell };
    let beyond = AssignedPoint { cell: 1000 };
    assert_eq!(chip.mul(&mut region, &no_point, &scalar, 2), Err(Error::UnknownCell));
    assert_eq!(chip.mul(&mut region, &point, &no_scalar, 2), Err(Error::UnknownCell));
    assert_eq!(chip.mul(&mut region, &beyond, &scalar, 2), Err(Error::UnknownCell));
    assert_eq!(
        chip.mul_batch_1d_horizontal(&mut region, vec![(point, scalar), (point, no_scalar)], 2),
        Err(Error::UnknownCell)
    );
    assert_eq!(region.offset(), rows);
    let mut other = Region::new();
    assert_eq!(chip.mul(&mut other, &point, &scalar, 2), Err(Error::UnknownCell));
    assert_eq!(other.offset(), 0);
}

#[test]
fn table_and_selection_of_unknown_cells_record_nothing() {
    let mut region = Region::new();
    let chip = GeneralEccChip::new(14);
    let point = region.assign_point();
    let bit = region.assign_constant(true);
    let beyond = AssignedPoint { cell: 9 };
    assert_eq!(
        chip.make_incremental_table(&mut region, &beyond, &point, 2).err(),
        Some(Error::UnknownCell)
    );
    assert_eq!(
        chip.make_incremental_table(&mut region, &point, &beyond, 2).err(),
        Some(Error::UnknownCell)
    );
    let table = Table(vec![point, beyond]);
    assert_eq!(
        chip.select_multi(&mut region, &Selector(vec![bit]), &table),
        Err(Error::UnknownCell)
    );
    let no_bit = AssignedCondition { cell: point.cell, position: 0 };
    let table = Table(vec![point, point]);
    assert_eq!(
        chip.select_multi(&mut region, &Selector(vec![no_bit]), &table),
        Err(Error::UnknownCell)
    );
    assert_eq!(region.offset(), 2);
}

#[test]
fn auxiliary_point_registered_last_is_the_one_in_use() {
    let mut region = Region::new();
    let mut chip = GeneralEccChip::new(14);
    assert_eq!(chip.assign_aux(&mut region, 2, 1), Err(Error::Synthesis));
    assert_eq!(region.offset(), 0);
    assert_eq!(chip.get_mul_aux(2, 1), Err(Error::Synthesis));
    let to_add = chip.assign_aux_generator(&mut region);
    assert_eq!(chip.get_mul_aux(2, 1), Err(Error::Synthesis));
    chip.assign_aux(&mut region, 2, 1).unwrap();
    chip.assign_aux(&mut region, 4, 1).unwrap();
    chip.assign_aux(&mut region, 2, 1).unwrap();
    let aux = chip.get_mul_aux(2, 1).unwrap();
    assert_eq!(aux.to_add, to_add);
    assert_eq!(aux.to_sub, AssignedPoint { cell: 3 });
    assert_eq!(chip.get_mul_aux(4, 1).unwrap().to_sub, AssignedPoint { cell: 2 });
    assert_eq!(chip.get_mul_aux(1, 2), Err(Error::Synthesis));
    assert_eq!(chip.scalar_bits(), 14);
}
