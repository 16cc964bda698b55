use vstd::prelude::*;

verus! {

/// A schematic file, as far as the bill-of-materials import reads it.
#[derive(Clone, Debug)]
pub struct Eagle {
    pub drawing: Drawing,
}

#[derive(Clone, Debug)]
pub struct Drawing {
    pub schematic: Schematic,
}

#[derive(Clone, Debug)]
pub struct Schematic {
    pub parts: Parts,
    pub attributes: Attributes,
    pub libraries: Libraries,
    pub variantdefs: VariantDefs,
}

#[derive(Clone, Debug)]
pub struct Libraries {
    pub library: Vec<Library>,
}

#[derive(Clone, Debug)]
pub struct Library {
    pub name: String,
    pub devicesets: DeviceSets,
}

#[derive(Clone, Debug)]
pub struct DeviceSets {
    pub deviceset: Vec<DeviceSet>,
}

#[derive(Clone, Debug)]
pub struct DeviceSet {
    pub name: String,
    pub devices: Devices,
}

#[derive(Clone, Debug)]
pub struct Devices {
    pub device: Vec<Device>,
}

#[derive(Clone, Debug)]
pub struct Device {
    pub name: String,
    pub technologies: Technologies,
}

#[derive(Clone, Debug)]
pub struct Technologies {
    pub technology: Vec<Technology>,
}

#[derive(Clone, Debug)]
pub struct Technology {
    pub name: String,
    pub attribute: Option<Vec<Attribute>>,
}

#[derive(Clone, Debug)]
pub struct Attributes {
    pub attribute: Vec<Attribute>,
}

#[derive(Clone, Debug)]
pub struct Attribute {
    pub name: String,
    pub value: String,
}

#[derive(Clone, Debug)]
pub struct Parts {
    pub part: Vec<Part>,
}

/// A placed part of the schematic: `name` is its reference designator.
#[derive(Clone, Debug)]
pub struct Part {
    pub name: String,
    pub deviceset: String,
    pub technology: Option<String>,
    pub device: String,
    pub variants: Vec<Variant>,
}

/// How a part is fitted in the assembly variant `name`.
#[derive(Clone, Debug)]
pub struct Variant {
    pub name: String,
    /// `Some("no")` when the part is left off in that variant.
    pub populate: Option<String>,
    /// A technology that replaces the part's own in that variant.
    pub technology: Option<String>,
}

#[derive(Clone, Debug)]
pub struct VariantDefs {
    pub variantdef: Vec<VariantDef>,
}

/// An assembly variant of the design; `current` is `Some("yes")` for the active one.
#[derive(Clone, Debug)]
pub struct VariantDef {
    pub name: String,
    pub current: Option<String>,
}

} // verus!
