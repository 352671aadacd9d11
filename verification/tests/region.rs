//! The region alone: what each operation records, and what it refuses.

use general_ecc::error::Error;
use general_ecc::region::{AssignedCondition, AssignedInteger, AssignedPoint, Gate, Region};

#[test]
fn new_region_is_empty() {
    let region = Region::new();
    assert_eq!(region.offset(), 0);
    assert_eq!(region.gate(0), None);
}

#[test]
fn each_operation_takes_the_next_row() {
    let mut region = Region::new();
    let p = region.assign_point();
    let q = region.assign_point();
    let n = region.assign_integer();
    let one = region.assign_constant(true);
    assert_eq!((p.cell, q.cell, n.cell, one.cell, one.position), (0, 1, 2, 3, 0));
    let sum = region.add(&p, &q).unwrap();
    let twice = region.double(&sum).unwrap();
    let shifted = region.double_n(&twice, 5).unwrap();
    let picked = region.select(&one, &shifted, &p).unwrap();
    let rung = region.ladder(&picked, &q).unwrap();
    assert_eq!((sum.cell, twice.cell, shifted.cell, picked.cell, rung.cell), (4, 5, 6, 7, 8));
    assert_eq!(region.offset(), 9);
    assert_eq!(region.gate(0), Some(Gate::Point));
    assert_eq!(region.gate(2), Some(Gate::Integer));
    assert_eq!(region.gate(3), Some(Gate::Constant { bit: true }));
    assert_eq!(region.gate(4), Some(Gate::Add { a: p, b: q }));
    assert_eq!(region.gate(5), Some(Gate::Double { a: sum }));
    assert_eq!(region.gate(6), Some(Gate::DoubleN { a: twice, n: 5 }));
    assert_eq!(region.gate(7), Some(Gate::Select { cond: one, a: shifted, b: p }));
    assert_eq!(region.gate(8), Some(Gate::Ladder { acc: picked, addend: q }));
    assert_eq!(region.gate(9), None);
}

#[test]
fn decompose_hands_out_the_bits_least_significant_first() {
    let mut region = Region::new();
    let n = region.assign_integer();
    let bits = region.decompose(&n, 4).unwrap();
    assert_eq!(region.gate(1), Some(Gate::Decompose { integer: n, bits: 4 }));
    let expected: Vec<AssignedCondition> =
        (0..4).map(|position| AssignedCondition { cell: 1, position }).collect();
    assert_eq!(bits, expected);
    assert!(region.contains_condition(&bits[3]));
    assert!(!region.contains_condition(&AssignedCondition { cell: 1, position: 4 }));
}

#[test]
fn handles_are_known_by_kind() {
    let mut region = Region::new();
    let p = region.assign_point();
    let n = region.assign_integer();
    let zero = region.assign_constant(false);
    assert!(region.contains_point(&p));
    assert!(!region.contains_point(&AssignedPoint { cell: n.cell }));
    assert!(!region.contains_point(&AssignedPoint { cell: 3 }));
    assert!(region.contains_integer(&n));
    assert!(!region.contains_integer(&AssignedInteger { cell: p.cell }));
    assert!(region.contains_condition(&zero));
    assert!(!region.contains_condition(&AssignedCondition { cell: zero.cell, position: 1 }));
    assert!(!region.contains_condition(&AssignedCondition { cell: p.cell, position: 0 }));
    let sum = region.add(&p, &p).unwrap();
    assert!(region.contains_point(&sum));
}

#[test]
fn operations_on_unknown_cells_record_nothing() {
    let mut region = Region::new();
    let p = region.assign_point();
    let n = region.assign_integer();
    let bit = region.assign_constant(true);
    let no_point = AssignedPoint { cell: n.cell };
    let beyond = AssignedPoint { cell: 3 };
    let no_bit = AssignedCondition { cell: p.cell, position: 0 };
    assert_eq!(region.add(&p, &no_point), Err(Error::UnknownCell));
    assert_eq!(region.add(&beyond, &p), Err(Error::UnknownCell));
    assert_eq!(region.double(&no_point), Err(Error::UnknownCell));
    assert_eq!(region.double_n(&beyond, 2), Err(Error::UnknownCell));
    assert_eq!(region.select(&no_bit, &p, &p), Err(Error::UnknownCell));
    assert_eq!(region.select(&bit, &p, &beyond), Err(Error::UnknownCell));
    assert_eq!(region.ladder(&p, &no_point), Err(Error::UnknownCell));
    assert_eq!(region.decompose(&AssignedInteger { cell: p.cell }, 8).err(), Some(Error::UnknownCell));
    assert_eq!(region.offset(), 3);
}
