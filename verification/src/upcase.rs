//! The volume's table of upper-case forms, by which names are compared.

use std::cmp::Ordering;

use vstd::prelude::*;

use crate::names;

verus! {

/// The upper-case form of every UTF-16 code unit, by its number. A unit past
/// the end of the table is its own.
pub struct UpcaseTable {
    units: Vec<u16>,
}

impl View for UpcaseTable {
    type V = Seq<u16>;

    closed spec fn view(&self) -> Seq<u16> {
        self.units@
    }
}

impl UpcaseTable {
    /// The table with the given upper-case forms.
    pub fn new(units: Vec<u16>) -> (t: Self)
        ensures
            t@ == units@,
    {
        UpcaseTable { units }
    }

    /// The upper-case form of `c`.
    pub fn fold(&self, c: u16) -> (u: u16)
        ensures
            u == names::fold_unit(Some(self@), c),
    {
        if (c as usize) < self.units.len() {
            self.units[c as usize]
        } else {
            c
        }
    }

    /// Compares two names by their upper-case forms, unit by unit and then by
    /// length.
    pub fn cmp_names(&self, a: &[u16], b: &[u16]) -> (o: Ordering)
        ensures
            match o {
                Ordering::Less => names::order(a@, b@, Some(self@)) < 0,
                Ordering::Equal => names::order(a@, b@, Some(self@)) == 0,
                Ordering::Greater => names::order(a@, b@, Some(self@)) > 0,
            },
    {
        names::compare_folded(a, b, Some(self))
    }
}

} // verus!
