use eagle_plm::bom::{
    current_variant, get_line_items_from_parts, get_simplepart_from_library, part_differs,
    schematic_part_number, LineItem,
};
use eagle_plm::error::Error;
use eagle_plm::models::{NewUpdatePart, Part};
use eagle_plm::schematic::{
    Attribute, Attributes, Device, DeviceSet, DeviceSets, Devices, Drawing, Eagle, Libraries,
    Library, Parts, Schematic, Technologies, Technology, Variant, VariantDef, VariantDefs,
};

fn attr(name: &str, value: &str) -> Attribute {
    Attribute { name: name.to_string(), value: value.to_string() }
}

fn sch_part(name: &str, deviceset: &str, technology: Option<&str>, device: &str, variants: Vec<Variant>) -> eagle_plm::schematic::Part {
    eagle_plm::schematic::Part {
        name: name.to_string(),
        deviceset: deviceset.to_string(),
        technology: technology.map(|t| t.to_string()),
        device: device.to_string(),
        variants,
    }
}

fn variant(name: &str, populate: Option<&str>, technology: Option<&str>) -> Variant {
    Variant {
        name: name.to_string(),
        populate: populate.map(|p| p.to_string()),
        technology: technology.map(|t| t.to_string()),
    }
}

fn library(name: &str, techs: Vec<Technology>) -> Library {
    Library {
        name: name.to_string(),
        devicesets: DeviceSets {
            deviceset: vec![DeviceSet {
                name: "RES".to_string(),
                devices: Devices {
                    device: vec![Device {
                        name: "0402".to_string(),
                        technologies: Technologies { technology: techs },
                    }],
                },
            }],
        },
    }
}

fn eagle(attrs: Vec<Attribute>, libs: Vec<Library>, defs: Vec<VariantDef>) -> Eagle {
    Eagle {
        drawing: Drawing {
            schematic: Schematic {
                parts: Parts { part: Vec::new() },
                attributes: Attributes { attribute: attrs },
                libraries: Libraries { library: libs },
                variantdefs: VariantDefs { variantdef: defs },
            },
        },
    }
}

fn item(pn: &str, quantity: i32) -> LineItem {
    LineItem { name: "R1".to_string(), pn: pn.to_string(), quantity, nostuff: false }
}

#[test]
fn line_items_merge_same_part_and_state() {
    let def = VariantDef { name: "MAIN".to_string(), current: Some("yes".to_string()) };
    let parts = vec![
        sch_part("R1", "RES", Some("10K"), "0402", vec![]),
        sch_part("GND1", "GND", None, "", vec![]),
        sch_part("R2", "RES", Some("10K"), "0402", vec![]),
        sch_part("R3", "RES", Some("10K"), "0402", vec![variant("MAIN", Some("no"), None)]),
        sch_part("R4", "RES", Some("1K"), "0402", vec![variant("OTHER", Some("no"), None), variant("MAIN", None, Some("10K"))]),
        sch_part("C1", "CAP", None, "0603", vec![]),
    ];
    let ignore = vec!["GND".to_string(), "FRAME".to_string()];
    let items = get_line_items_from_parts(&parts, &def, &ignore);
    assert_eq!(
        items.iter().map(|i| (i.name.as_str(), i.pn.as_str(), i.quantity, i.nostuff)).collect::<Vec<_>>(),
        vec![
            ("R1 R2 R4", "RES10K0402", 3, false),
            ("R3", "RES10K0402", 1, true),
            ("C1", "CAP0603", 1, false),
        ]
    );
}

#[test]
fn simple_part_takes_library_attributes() {
    let tech = Technology {
        name: "10K".to_string(),
        attribute: Some(vec![attr("MPN", "RC0402-10K"), attr("DESC", "RES 10K 0402"), attr("MQTY", " 4 "), attr("DIGIKEYPN", ""), attr("DESC", "")]),
    };
    let e = eagle(vec![], vec![library("other", vec![]), library("parts", vec![tech])], vec![]);
    let p = get_simplepart_from_library(&item("RES10K0402", 2), &e, "parts").unwrap();
    assert_eq!(p.pn, "RES10K0402");
    assert_eq!(p.mpn, "RC0402-10K");
    assert_eq!(p.descr, "RES 10K 0402");
    assert_eq!(p.mqty, 4);
    assert_eq!(p.ver, 0);
    assert!(!p.nostuff);
    let none = get_simplepart_from_library(&item("RES1K0402", 2), &e, "parts").unwrap();
    assert_eq!(none.mpn, "");
    assert_eq!(none.mqty, 2);
    let elsewhere = get_simplepart_from_library(&item("RES10K0402", 2), &e, "nope").unwrap();
    assert_eq!(elsewhere.mpn, "");
}

#[test]
fn simple_part_rejects_bad_multiplier() {
    let tech = Technology { name: "10K".to_string(), attribute: Some(vec![attr("MQTY", "four")]) };
    let e = eagle(vec![], vec![library("parts", vec![tech])], vec![]);
    assert!(matches!(get_simplepart_from_library(&item("RES10K0402", 1), &e, "parts"), Err(Error::InvalidInput)));
}

#[test]
fn schematic_needs_part_number() {
    let e = eagle(vec![attr("DESC", "Main board"), attr("PN", "PCB-1")], vec![], vec![]);
    let (pn, desc) = schematic_part_number(&e).unwrap();
    assert_eq!(pn, "PCB-1");
    assert_eq!(desc, "Main board");
    let e = eagle(vec![attr("PN", "PCB-2")], vec![], vec![]);
    assert_eq!(schematic_part_number(&e).unwrap().1, "");
    let e = eagle(vec![attr("DESC", "Main board")], vec![], vec![]);
    assert!(matches!(schematic_part_number(&e), Err(Error::InvalidInput)));
}

#[test]
fn current_variant_is_first_active() {
    let defs = vec![
        VariantDef { name: "A".to_string(), current: None },
        VariantDef { name: "B".to_string(), current: Some("yes".to_string()) },
        VariantDef { name: "C".to_string(), current: Some("yes".to_string()) },
    ];
    let e = eagle(vec![], vec![], defs);
    assert_eq!(current_variant(&e).unwrap().name, "B");
    let e = eagle(vec![], vec![], vec![VariantDef { name: "A".to_string(), current: Some("no".to_string()) }]);
    assert!(current_variant(&e).is_none());
}

#[test]
fn part_differs_on_mpn_description_or_version() {
    let existing = Part {
        id: 1,
        pn: "CAP-0.1U-10V-0402".to_string(),
        mpn: "ABCD".to_string(),
        digikeypn: None,
        descr: "CAP 0.1U 10V 0402".to_string(),
        ver: 1,
        mqty: 1,
        val: None,
    };
    let mut new = NewUpdatePart {
        pn: "CAP-0.1U-10V-0402".to_string(),
        mpn: "ABCD".to_string(),
        descr: "CAP 0.1U 10V 0402".to_string(),
        ver: 1,
        mqty: 1,
    };
    assert!(!part_differs(&new, &existing));
    new.descr = "CAP 0.1 10V 0402 GOOD".to_string();
    assert!(part_differs(&new, &existing));
    new.descr = existing.descr.clone();
    new.ver = 2;
    assert!(part_differs(&new, &existing));
}

#[test]
fn multiplier_takes_signs_and_rejects_out_of_range() {
    let lib_with = |v: &str| {
        let tech = Technology { name: "10K".to_string(), attribute: Some(vec![attr("MQTY", v)]) };
        eagle(vec![], vec![library("parts", vec![tech])], vec![])
    };
    let p = get_simplepart_from_library(&item("RES10K0402", 1), &lib_with("+7"), "parts").unwrap();
    assert_eq!(p.mqty, 7);
    let p = get_simplepart_from_library(&item("RES10K0402", 1), &lib_with("\t-3\n"), "parts").unwrap();
    assert_eq!(p.mqty, -3);
    assert!(matches!(get_simplepart_from_library(&item("RES10K0402", 1), &lib_with("2147483648"), "parts"), Err(Error::InvalidInput)));
    assert!(matches!(get_simplepart_from_library(&item("RES10K0402", 1), &lib_with("-"), "parts"), Err(Error::InvalidInput)));
}
