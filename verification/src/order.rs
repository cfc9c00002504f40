use crate::network::Network;
use std::cmp::Ordering;
use vstd::prelude::*;
use vstd::std_specs::cmp::{PartialEqSpecImpl, PartialOrdSpecImpl};

verus! {

/// Genomes compare by their scores alone.
impl PartialEq for Network {
    fn eq(&self, other: &Self) -> (same: bool) {
        self.fitness == other.fitness
    }
}

impl PartialEqSpecImpl for Network {
    open spec fn obeys_eq_spec() -> bool {
        true
    }

    open spec fn eq_spec(&self, other: &Self) -> bool {
        self.fitness == other.fitness
    }
}

/// The fitter genome is the lesser one, so that an ascending sort puts the
/// fittest first.
impl PartialOrd for Network {
    fn partial_cmp(&self, other: &Network) -> (order: Option<Ordering>) {
        if self.fitness > other.fitness {
            Some(Ordering::Less)
        } else if self.fitness < other.fitness {
            Some(Ordering::Greater)
        } else {
            Some(Ordering::Equal)
        }
    }
}

impl PartialOrdSpecImpl for Network {
    open spec fn obeys_partial_cmp_spec() -> bool {
        true
    }

    open spec fn partial_cmp_spec(&self, other: &Self) -> Option<Ordering> {
        if self.fitness > other.fitness {
            Some(Ordering::Less)
        } else if self.fitness < other.fitness {
            Some(Ordering::Greater)
        } else {
            Some(Ordering::Equal)
        }
    }
}

} // verus!
