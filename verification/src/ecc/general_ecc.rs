//! The chip for a curve whose fields are emulated: both its coordinates and its scalars
//! live in fields other than the one of the constraint system.

use crate::ecc::MulAux;
use crate::error::Error;
use crate::region::{AssignedPoint, Gate, Region};
use vstd::prelude::*;

pub mod accumulator;
pub mod layout;
pub mod preparation;
pub mod scalar_mul;
pub mod selection;
pub mod steps;
pub mod table;
pub mod windows;

verus! {

/// The point that takes the blinding away again, for one window size and one batch size.
#[derive(Clone, Copy, Debug, PartialEq, Eq, Structural)]
pub struct AuxEntry {
    pub window_size: usize,
    pub number_of_pairs: usize,
    pub to_sub: AssignedPoint,
}

/// The entry that was registered last for `window_size` and `number_of_pairs`.
pub open spec fn registered(entries: Seq<AuxEntry>, window_size: usize, number_of_pairs: usize) -> Option<
    AssignedPoint,
>
    decreases entries.len(),
{
    if entries.len() == 0 {
        None
    } else if entries.last().window_size == window_size && entries.last().number_of_pairs
        == number_of_pairs {
        Some(entries.last().to_sub)
    } else {
        registered(entries.drop_last(), window_size, number_of_pairs)
    }
}

/// The chip: the width of the scalars it multiplies by, and the auxiliary points it was
/// given.
pub struct GeneralEccChip {
    scalar_bits: usize,
    aux_generator: Option<AssignedPoint>,
    aux_registry: Vec<AuxEntry>,
}

impl GeneralEccChip {
    /// The number of bits of a scalar.
    pub closed spec fn bits(&self) -> nat {
        self.scalar_bits as nat
    }

    /// The point that roots the tables, once it is assigned.
    pub closed spec fn generator(&self) -> Option<AssignedPoint> {
        self.aux_generator
    }

    /// What was registered, in the order of registration.
    pub closed spec fn registry(&self) -> Seq<AuxEntry> {
        self.aux_registry@
    }

    /// The auxiliary pair for `window_size` and `number_of_pairs`, where both of its
    /// points are assigned.
    pub open spec fn aux(&self, window_size: usize, number_of_pairs: usize) -> Option<MulAux> {
        match (self.generator(), registered(self.registry(), window_size, number_of_pairs)) {
            (Some(to_add), Some(to_sub)) => Some(MulAux { to_add, to_sub }),
            _ => None,
        }
    }

    /// A chip for scalars of `scalar_bits` bits, with no auxiliary point yet.
    pub fn new(scalar_bits: usize) -> (chip: GeneralEccChip)
        ensures
            chip.bits() == scalar_bits,
            chip.generator() is None,
            chip.registry() == Seq::<AuxEntry>::empty(),
    {
        GeneralEccChip { scalar_bits, aux_generator: None, aux_registry: Vec::new() }
    }

    /// The number of bits of a scalar.
    pub fn scalar_bits(&self) -> (bits: usize)
        ensures
            bits == self.bits(),
    {
        self.scalar_bits
    }

    /// Assigns the point that roots the tables: the prover supplies it.
    pub fn assign_aux_generator(&mut self, region: &mut Region) -> (to_add: AssignedPoint)
        ensures
            final(region)@ == old(region)@.push(Gate::Point),
            old(region).wf() ==> final(region).wf(),
            to_add.cell == old(region)@.len(),
            final(self).generator() == Some(to_add),
            final(self).registry() == old(self).registry(),
            final(self).bits() == old(self).bits(),
    {
        let to_add = region.assign_point();
        self.aux_generator = Some(to_add);
        to_add
    }

    /// Assigns the point that takes the blinding away for `window_size` and
    /// `number_of_pairs`, and registers it in place of an earlier one: the prover
    /// supplies it. Without a generator nothing is assigned.
    pub fn assign_aux(&mut self, region: &mut Region, window_size: usize, number_of_pairs: usize) -> (result:
        Result<(), Error>)
        ensures
            final(self).generator() == old(self).generator(),
            final(self).bits() == old(self).bits(),
            old(region).wf() ==> final(region).wf(),
            match result {
                Ok(_) => {
                    &&& old(self).generator() is Some
                    &&& final(region)@ == old(region)@.push(Gate::Point)
                    &&& final(self).registry() == old(self).registry().push(
                        AuxEntry {
                            window_size,
                            number_of_pairs,
                            to_sub: AssignedPoint { cell: old(region)@.len() as usize },
                        },
                    )
                },
                Err(e) => {
                    &&& old(self).generator() is None
                    &&& e == Error::Synthesis
                    &&& final(region)@ == old(region)@
                    &&& final(self).registry() == old(self).registry()
                },
            },
    {
        if self.aux_generator.is_none() {
            return Err(Error::Synthesis);
        }
        let to_sub = region.assign_point();
        self.aux_registry.push(AuxEntry { window_size, number_of_pairs, to_sub });
        Ok(())
    }

    /// The auxiliary pair for `window_size` and `number_of_pairs`.
    pub fn get_mul_aux(&self, window_size: usize, number_of_pairs: usize) -> (result: Result<
        MulAux,
        Error,
    >)
        ensures
            match result {
                Ok(aux) => self.aux(window_size, number_of_pairs) == Some(aux),
                Err(e) => e == Error::Synthesis && self.aux(window_size, number_of_pairs) is None,
            },
    {
        let to_add = match self.aux_generator {
            Some(to_add) => to_add,
            None => {
                return Err(Error::Synthesis);
            },
        };
        let mut i: usize = self.aux_registry.len();
        proof {
            assert(self.aux_registry@.take(i as int) =~= self.aux_registry@);
        }
        while i > 0
            invariant
                i <= self.aux_registry@.len(),
                self.aux_generator == Some(to_add),
                registered(self.aux_registry@, window_size, number_of_pairs) == registered(
                    self.aux_registry@.take(i as int),
                    window_size,
                    number_of_pairs,
                ),
            decreases i,
        {
            i = i - 1;
            let entry = self.aux_registry[i];
            proof {
                let head = self.aux_registry@.take(i + 1);
                assert(head.last() == self.aux_registry@[i as int]);
                assert(head.drop_last() =~= self.aux_registry@.take(i as int));
                assert(registered(head, window_size, number_of_pairs) == if entry.window_size
                    == window_size && entry.number_of_pairs == number_of_pairs {
                    Some(entry.to_sub)
                } else {
                    registered(head.drop_last(), window_size, number_of_pairs)
                });
            }
            if entry.window_size == window_size && entry.number_of_pairs == number_of_pairs {
                return Ok(MulAux { to_add, to_sub: entry.to_sub });
            }
        }
        proof {
            assert(self.aux_registry@.take(self.aux_registry@.len() as int) =~= self.aux_registry@);
        }
        Err(Error::Synthesis)
    }
}

} // verus!
