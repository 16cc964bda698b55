use vstd::prelude::*;

verus! {

/// A catalogued part, identified by `id`, with the unique part number `pn`
/// and the unique manufacturer part number `mpn`.
#[derive(Clone, Debug)]
pub struct Part {
    pub id: i32,
    pub pn: String,
    pub mpn: String,
    pub digikeypn: Option<String>,
    pub descr: String,
    /// Revision of the part; starts at 1 and only grows.
    pub ver: i32,
    /// Units produced by one build of this part (a panel of several boards).
    pub mqty: i32,
    pub val: Option<String>,
}

/// The fields of a part that are written when one is created or updated.
#[derive(Clone, Debug)]
pub struct NewUpdatePart {
    pub pn: String,
    pub mpn: String,
    pub descr: String,
    pub ver: i32,
    pub mqty: i32,
}

/// One line of the bill of materials of `(bom_part_id, bom_ver)`: `quantity`
/// units of the component `part_id` for each assembly, placed at `refdes`.
#[derive(Clone, Debug)]
pub struct PartsPart {
    pub id: i32,
    pub quantity: i32,
    pub bom_ver: i32,
    pub refdes: String,
    /// The position exists on the design but is deliberately left empty.
    pub nostuff: bool,
    pub bom_part_id: i32,
    pub part_id: i32,
}

/// A bill-of-materials line about to be stored.
#[derive(Clone, Debug)]
pub struct NewPartsParts {
    pub quantity: i32,
    pub bom_ver: i32,
    pub refdes: String,
    pub nostuff: bool,
    pub bom_part_id: i32,
    pub part_id: i32,
}

/// One inventory lot of a part. Prices are integers in the store's
/// fixed-point money unit; a lot of unknown price has `unit_price == None`.
#[derive(Clone, Debug)]
pub struct Inventory {
    pub id: i32,
    /// Quantity on hand; normally not negative, but adjustments may make it so.
    pub quantity: i32,
    /// Running total taken from this lot by completed builds.
    pub consumed: i32,
    pub unit_price: Option<i64>,
    pub notes: Option<String>,
    pub part_ver: i32,
    pub part_id: i32,
}

/// An inventory lot about to be stored, or the new content of a stored one.
#[derive(Clone, Debug)]
pub struct NewInventoryEntry {
    pub quantity: i32,
    pub consumed: i32,
    pub unit_price: Option<i64>,
    pub part_ver: i32,
    pub part_id: i32,
    pub notes: Option<String>,
}

/// A production order for `quantity` units of version `part_ver` of part `part_id`.
#[derive(Clone, Debug)]
pub struct Build {
    pub id: i32,
    pub quantity: i32,
    /// Cost of the finished build, once known.
    pub cost: Option<i64>,
    /// Set exactly once, when the build is completed; never cleared.
    pub complete: bool,
    pub notes: Option<String>,
    pub part_ver: i32,
    pub part_id: i32,
}

/// A build about to be stored, or the new content of a stored one.
#[derive(Clone, Debug)]
pub struct NewBuild {
    pub quantity: i32,
    pub complete: bool,
    pub notes: String,
    pub part_ver: i32,
    pub part_id: i32,
}

/// Largest number of records of one kind that a store with 32-bit keys holds.
pub open spec fn fits_store(n: int) -> bool {
    n <= u32::MAX as int
}

} // verus!
