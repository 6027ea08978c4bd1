//! Offsets within an attribute header.

use vstd::prelude::*;

verus! {

pub const TYPE: usize = 0x00;

pub const LENGTH: usize = 0x04;

pub const NON_RESIDENT: usize = 0x08;

pub const NAME_LENGTH: usize = 0x09;

pub const NAME_OFFSET: usize = 0x0A;

pub const FLAGS: usize = 0x0C;

pub const ATTRIBUTE_ID: usize = 0x0E;

// Resident form.
pub const RESIDENT_VALUE_LENGTH: usize = 0x10;

pub const RESIDENT_VALUE_OFFSET: usize = 0x14;

// Non-resident form.
pub const NONRES_FIRST_VCN: usize = 0x10;

pub const NONRES_LAST_VCN: usize = 0x18;

pub const NONRES_MAPPING_PAIRS_OFFSET: usize = 0x20;

pub const NONRES_ALLOCATED_LENGTH: usize = 0x28;

pub const NONRES_DATA_LENGTH: usize = 0x30;

pub const NONRES_INITIALIZED_LENGTH: usize = 0x38;

} // verus!
