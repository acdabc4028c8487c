//! Facet values that own a set of preset ids: categories, modes and banks.

use crate::natural::{natural_order, natural_ordering, order_of};
use std::cmp::Ordering;
use std::collections::HashSet;
use vstd::prelude::*;
use vstd::std_specs::iter::IteratorSpec;
use vstd::string::*;

verus! {

/// The text that stands between two parts of a display name.
pub open spec fn separator() -> Seq<char> {
    seq![' ', '/', ' ']
}

/// `head` extended by `part`: an empty part adds nothing, and the separator
/// stands only between two parts that are both present.
pub open spec fn with_part(head: Seq<char>, part: Seq<char>) -> Seq<char> {
    if part.len() == 0 {
        head
    } else if head.len() == 0 {
        part
    } else {
        head + separator() + part
    }
}

/// The display name of up to three hierarchical parts: the parts that are
/// not empty, joined by `" / "`.
pub open spec fn display_name(first: Seq<char>, second: Seq<char>, third: Seq<char>) -> Seq<char> {
    with_part(with_part(first, second), third)
}

/// Adds one more part to a display name.
fn push_part(name: &mut String, part: &String)
    ensures
        final(name)@ == with_part(old(name)@, part@),
{
    if part.as_str().is_empty() {
        return ;
    }
    if !name.as_str().is_empty() {
        proof {
            reveal_strlit(" / ");
        }
        name.append(" / ");
        assert(name@ =~= old(name)@ + separator());
    }
    name.append(part.as_str());
}

/// Joins up to three hierarchical parts to a display name.
pub fn join_parts(first: &String, second: &String, third: &String) -> (name: String)
    ensures
        name@ == display_name(first@, second@, third@),
{
    let mut name = first.clone();
    push_part(&mut name, second);
    push_part(&mut name, third);
    name
}

/// A second set with the same ids.
pub fn clone_ids(ids: &HashSet<usize>) -> (copy: HashSet<usize>)
    ensures
        copy@ == ids@,
{
    broadcast use vstd::std_specs::hash::group_hash_axioms;

    let mut copy: HashSet<usize> = HashSet::new();
    let ghost order = ids.iter().remaining().unref();
    for id in it: ids.iter()
        invariant
            it.seq().unref() == order,
            order.to_set() == ids@,
            copy@ == order.take(it.index()).to_set(),
    {
        assert(order[it.index()] == *id);
        assert(order.take(it.index() + 1) =~= order.take(it.index()).push(*id));
        assert(order.take(it.index()).push(*id).to_set() =~= order.take(it.index()).to_set().insert(*id)) by {
            let before = order.take(it.index());
            assert forall|x: usize| before.push(*id).to_set().contains(x) <==> before.to_set().insert(*id).contains(
                x,
            ) by {
                if before.push(*id).contains(x) {
                    let i = choose|i: int| 0 <= i < before.push(*id).len() && before.push(*id)[i] == x;
                    if i < before.len() {
                        assert(before[i] == x);
                    }
                }
                if before.contains(x) {
                    let i = choose|i: int| 0 <= i < before.len() && before[i] == x;
                    assert(before.push(*id)[i] == x);
                }
                if x == *id {
                    assert(before.push(*id)[before.len() as int] == x);
                }
            }
        }
        copy.insert(*id);
    }
    assert(order.take(order.len() as int) =~= order);
    copy
}

/// A hierarchical category of presets.
#[derive(Debug)]
pub struct Category {
    pub id: usize,
    pub name: String,
    pub subcategory: String,
    pub subsubcategory: String,
    pub presets: HashSet<usize>,
}

/// A copy of a category says what the category says, field by field.
impl Clone for Category {
    fn clone(&self) -> (copy: Self)
        ensures
            copy.id == self.id,
            copy.name == self.name,
            copy.subcategory == self.subcategory,
            copy.subsubcategory == self.subsubcategory,
            copy.presets@ == self.presets@,
    {
        Category {
            id: self.id,
            name: self.name.clone(),
            subcategory: self.subcategory.clone(),
            subsubcategory: self.subsubcategory.clone(),
            presets: clone_ids(&self.presets),
        }
    }
}

/// Two values are the same category where their ids are the same.
impl PartialEq for Category {
    fn eq(&self, other: &Self) -> (same: bool) {
        self.id == other.id
    }
}

impl vstd::std_specs::cmp::PartialEqSpecImpl for Category {
    open spec fn obeys_eq_spec() -> bool {
        true
    }

    open spec fn eq_spec(&self, other: &Self) -> bool {
        self.id == other.id
    }
}

impl Eq for Category {
}

/// Categories are ordered by their display names, in natural order.
impl PartialOrd for Category {
    fn partial_cmp(&self, other: &Self) -> (order: Option<Ordering>) {
        Some(natural_ordering(self.get_name().as_str(), other.get_name().as_str()))
    }
}

impl vstd::std_specs::cmp::PartialOrdSpecImpl for Category {
    open spec fn obeys_partial_cmp_spec() -> bool {
        true
    }

    open spec fn partial_cmp_spec(&self, other: &Self) -> Option<Ordering> {
        Some(order_of(natural_order(self.display(), other.display())))
    }
}

impl Category {
    /// The name under which the category is shown and ordered.
    pub open spec fn display(&self) -> Seq<char> {
        display_name(self.name@, self.subcategory@, self.subsubcategory@)
    }

    /// The display name: the category's name and its subcategories, as far
    /// as they are not empty, joined by `" / "`.
    pub fn get_name(&self) -> (name: String)
        ensures
            name@ == self.display(),
    {
        join_parts(&self.name, &self.subcategory, &self.subsubcategory)
    }
}

/// A performance mode of presets.
#[derive(Debug)]
pub struct Mode {
    pub id: usize,
    pub name: String,
    pub presets: HashSet<usize>,
}

/// A copy of a mode says what the mode says, field by field.
impl Clone for Mode {
    fn clone(&self) -> (copy: Self)
        ensures
            copy.id == self.id,
            copy.name == self.name,
            copy.presets@ == self.presets@,
    {
        Mode { id: self.id, name: self.name.clone(), presets: clone_ids(&self.presets) }
    }
}

/// Two values are the same mode where their ids are the same.
impl PartialEq for Mode {
    fn eq(&self, other: &Self) -> (same: bool) {
        self.id == other.id
    }
}

impl vstd::std_specs::cmp::PartialEqSpecImpl for Mode {
    open spec fn obeys_eq_spec() -> bool {
        true
    }

    open spec fn eq_spec(&self, other: &Self) -> bool {
        self.id == other.id
    }
}

impl Eq for Mode {
}

/// Modes are ordered by their names, in natural order.
impl PartialOrd for Mode {
    fn partial_cmp(&self, other: &Self) -> (order: Option<Ordering>) {
        Some(natural_ordering(self.name.as_str(), other.name.as_str()))
    }
}

impl vstd::std_specs::cmp::PartialOrdSpecImpl for Mode {
    open spec fn obeys_partial_cmp_spec() -> bool {
        true
    }

    open spec fn partial_cmp_spec(&self, other: &Self) -> Option<Ordering> {
        Some(order_of(natural_order(self.name@, other.name@)))
    }
}

/// A bank of presets; the id `0` stands for "no bank".
#[derive(Debug)]
pub struct Bank {
    pub id: usize,
    pub entry1: String,
    pub entry2: String,
    pub entry3: String,
    pub presets: HashSet<usize>,
}

/// A copy of a bank says what the bank says, field by field.
impl Clone for Bank {
    fn clone(&self) -> (copy: Self)
        ensures
            copy.id == self.id,
            copy.entry1 == self.entry1,
            copy.entry2 == self.entry2,
            copy.entry3 == self.entry3,
            copy.presets@ == self.presets@,
    {
        Bank {
            id: self.id,
            entry1: self.entry1.clone(),
            entry2: self.entry2.clone(),
            entry3: self.entry3.clone(),
            presets: clone_ids(&self.presets),
        }
    }
}

/// Two values are the same bank where their ids are the same.
impl PartialEq for Bank {
    fn eq(&self, other: &Self) -> (same: bool) {
        self.id == other.id
    }
}

impl vstd::std_specs::cmp::PartialEqSpecImpl for Bank {
    open spec fn obeys_eq_spec() -> bool {
        true
    }

    open spec fn eq_spec(&self, other: &Self) -> bool {
        self.id == other.id
    }
}

impl Eq for Bank {
}

/// Banks are ordered by their display names, in natural order.
impl PartialOrd for Bank {
    fn partial_cmp(&self, other: &Self) -> (order: Option<Ordering>) {
        Some(natural_ordering(self.get_name().as_str(), other.get_name().as_str()))
    }
}

impl vstd::std_specs::cmp::PartialOrdSpecImpl for Bank {
    open spec fn obeys_partial_cmp_spec() -> bool {
        true
    }

    open spec fn partial_cmp_spec(&self, other: &Self) -> Option<Ordering> {
        Some(order_of(natural_order(self.display(), other.display())))
    }
}

impl Bank {
    /// The name under which the bank is shown and ordered.
    pub open spec fn display(&self) -> Seq<char> {
        display_name(self.entry1@, self.entry2@, self.entry3@)
    }

    /// The display name: the bank's entries, as far as they are not empty,
    /// joined by `" / "`.
    pub fn get_name(&self) -> (name: String)
        ensures
            name@ == self.display(),
    {
        join_parts(&self.entry1, &self.entry2, &self.entry3)
    }
}

} // verus!
