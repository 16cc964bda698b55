use vstd::prelude::*;

verus! {

/// How an attrition allowance is counted.
#[derive(Clone, Copy, Debug, PartialEq, Eq, Structural)]
pub enum AttritionType {
    /// A fixed number of extra units.
    Each,
    /// A percentage of the quantity.
    Percentage,
}

/// One attrition allowance.
#[derive(Clone, Copy, Debug, PartialEq, Eq, Structural)]
pub struct AttritionEntry {
    pub value: u32,
    pub attype: AttritionType,
}

/// The attrition allowances in force.
#[derive(Clone, Debug)]
pub struct AttritionConfig {
    pub entries: Vec<AttritionEntry>,
}

/// Settings kept in the user's configuration folder.
#[derive(Clone, Debug)]
pub struct Config {
    /// Name of the database file within the configuration folder.
    pub database_name: String,
    /// Name of the schematic library whose devices carry part attributes.
    pub library_name: String,
    pub attrition_config: AttritionConfig,
    /// Schematic parts whose device set contains one of these are not parts to buy.
    pub part_number_ignore_list: Vec<String>,
}

} // verus!
