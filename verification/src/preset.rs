//! Sound presets.

use crate::category::clone_ids;
use crate::natural::{natural_order, natural_ordering, order_of};
use crate::product::ProductKey;
use std::cmp::Ordering;
use std::collections::HashSet;
use vstd::prelude::*;

verus! {

/// A sound preset with the facet values it carries.
#[derive(Debug)]
pub struct Preset {
    pub name: String,
    pub vendor: String,
    pub comment: String,
    pub product_id: ProductKey,
    pub product_name: String,
    pub id: usize,
    pub file_name: String,
    /// The preset's bank, `0` where it has none.
    pub bank: usize,
    pub categories: HashSet<usize>,
    pub modes: HashSet<usize>,
}

/// A copy of a preset says what the preset says, field by field.
impl Clone for Preset {
    fn clone(&self) -> (copy: Self)
        ensures
            copy.name == self.name,
            copy.vendor == self.vendor,
            copy.comment == self.comment,
            copy.product_id@ == self.product_id@,
            copy.product_name == self.product_name,
            copy.id == self.id,
            copy.file_name == self.file_name,
            copy.bank == self.bank,
            copy.categories@ == self.categories@,
            copy.modes@ == self.modes@,
    {
        Preset {
            name: self.name.clone(),
            vendor: self.vendor.clone(),
            comment: self.comment.clone(),
            product_id: self.product_id.clone(),
            product_name: self.product_name.clone(),
            id: self.id,
            file_name: self.file_name.clone(),
            bank: self.bank,
            categories: clone_ids(&self.categories),
            modes: clone_ids(&self.modes),
        }
    }
}

/// Two values are the same preset where their ids are the same.
impl PartialEq for Preset {
    fn eq(&self, other: &Self) -> (same: bool) {
        self.id == other.id
    }
}

impl vstd::std_specs::cmp::PartialEqSpecImpl for Preset {
    open spec fn obeys_eq_spec() -> bool {
        true
    }

    open spec fn eq_spec(&self, other: &Self) -> bool {
        self.id == other.id
    }
}

impl Eq for Preset {
}

/// Presets are ordered by their names, in natural order.
impl PartialOrd for Preset {
    fn partial_cmp(&self, other: &Self) -> (order: Option<Ordering>) {
        Some(natural_ordering(self.name.as_str(), other.name.as_str()))
    }
}

impl vstd::std_specs::cmp::PartialOrdSpecImpl for Preset {
    open spec fn obeys_partial_cmp_spec() -> bool {
        true
    }

    open spec fn partial_cmp_spec(&self, other: &Self) -> Option<Ordering> {
        Some(order_of(natural_order(self.name@, other.name@)))
    }
}

} // verus!
