use eagle_plm::bom::{bom_entries, explode, ComponentRequirement};
use eagle_plm::builds::{build_export_rows, complete_build, new_build, short_components};
use eagle_plm::error::Error;
use eagle_plm::inventory::{
    get_shortages, inventory_entries_from_records, inventory_export_rows, quantity_on_hand,
    NewInventoryRecord,
};
use eagle_plm::models::{Build, Inventory, Part, PartsPart};

fn part(id: i32, pn: &str, mpn: &str, descr: &str) -> Part {
    Part {
        id,
        pn: pn.to_string(),
        mpn: mpn.to_string(),
        digikeypn: None,
        descr: descr.to_string(),
        ver: 1,
        mqty: 1,
        val: None,
    }
}

fn line(id: i32, bom: i32, ver: i32, component: i32, quantity: i32, nostuff: bool) -> PartsPart {
    PartsPart {
        id,
        quantity,
        bom_ver: ver,
        refdes: format!("R{}", id),
        nostuff,
        bom_part_id: bom,
        part_id: component,
    }
}

fn lot(id: i32, part_id: i32, quantity: i32, price: Option<i64>) -> Inventory {
    Inventory {
        id,
        quantity,
        consumed: 0,
        unit_price: price,
        notes: None,
        part_ver: 1,
        part_id,
    }
}

fn build(id: i32, part_id: i32, ver: i32, quantity: i32) -> Build {
    Build {
        id,
        quantity,
        cost: None,
        complete: false,
        notes: Some("first run".to_string()),
        part_ver: ver,
        part_id,
    }
}

// Part ids of the scenario: A is the assembly, B and C its components.
const A: i32 = 1;
const B: i32 = 2;
const C: i32 = 3;

fn scenario_parts() -> Vec<Part> {
    vec![
        part(A, "A", "A-MPN", "assembly"),
        part(B, "B", "B-MPN", "resistor"),
        part(C, "C", "C-MPN", "capacitor"),
    ]
}

fn scenario_lines() -> Vec<PartsPart> {
    vec![line(1, A, 1, B, 2, false), line(2, A, 1, C, 1, true)]
}

#[test]
fn explode_merges_duplicate_lines() {
    let lines = vec![
        line(1, A, 1, B, 2, false),
        line(2, A, 1, C, 1, false),
        line(3, A, 1, B, 3, false),
        line(4, A, 1, B, 4, true),
        line(5, A, 2, B, 9, false),
        line(6, 7, 1, B, 9, false),
    ];
    let reqs = explode(&lines, A, 1).unwrap();
    assert_eq!(
        reqs,
        vec![
            ComponentRequirement { component_part_id: B, per_unit_quantity: 5, no_stuff: false },
            ComponentRequirement { component_part_id: C, per_unit_quantity: 1, no_stuff: false },
            ComponentRequirement { component_part_id: B, per_unit_quantity: 4, no_stuff: true },
        ]
    );
}

#[test]
fn explode_unknown_bom_is_not_found() {
    let lines = scenario_lines();
    assert_eq!(explode(&lines, A, 2), Err(Error::NotFound));
    assert_eq!(explode(&Vec::new(), A, 1), Err(Error::NotFound));
}

#[test]
fn quantity_on_hand_sums_all_lots_of_the_part() {
    let lots = vec![lot(1, B, 5, None), lot(2, C, 7, None), lot(3, B, -2, Some(1))];
    assert_eq!(quantity_on_hand(&lots, B), 3);
    assert_eq!(quantity_on_hand(&lots, A), 0);
}

#[test]
fn scenario_shortage_then_satisfied() {
    let parts = scenario_parts();
    let lines = scenario_lines();
    let builds = vec![build(10, A, 1, 3)];
    let mut lots = vec![lot(1, B, 5, Some(5000))];

    let report = get_shortages(&builds, &lines, &lots, &parts, false).unwrap();
    assert_eq!(report.len(), 1);
    assert_eq!(report[0].pid, B);
    assert_eq!(report[0].pn, "B");
    assert_eq!(report[0].mpn, "B-MPN");
    assert_eq!(report[0].desc, "resistor");
    assert_eq!(report[0].have, 5);
    assert_eq!(report[0].needed, 6);
    assert_eq!(report[0].short, 1);

    lots.push(lot(2, B, 2, Some(6000)));
    let report = get_shortages(&builds, &lines, &lots, &parts, false).unwrap();
    assert!(report.is_empty());
    let all = get_shortages(&builds, &lines, &lots, &parts, true).unwrap();
    assert_eq!(all.len(), 1);
    assert_eq!(all[0].needed, 6);
    assert_eq!(all[0].have, 7);
    assert_eq!(all[0].short, 0);

    let done = complete_build(&builds[0], &lines, &lots).unwrap();
    assert_eq!(done.lots[0].quantity, 0);
    assert_eq!(done.lots[0].consumed, 5);
    assert_eq!(done.lots[1].quantity, 1);
    assert_eq!(done.lots[1].consumed, 1);
    // prices in ten-thousandths: $2.50 + $0.60
    assert_eq!(done.total_cost, 31000);
    assert_eq!(done.unit_cost, 10333);
    assert!(done.build.complete);
    assert_eq!(done.build.notes, Some("first run".to_string()));
    assert_eq!(done.new_lot.quantity, 3);
    assert_eq!(done.new_lot.consumed, 0);
    assert_eq!(done.new_lot.part_id, A);
    assert_eq!(done.new_lot.part_ver, 1);
    assert_eq!(done.new_lot.unit_price, Some(10333));
    assert_eq!(done.new_lot.notes, Some("Build 10".to_string()));
}

#[test]
fn cost_weighting_fifo() {
    let parts = scenario_parts();
    let lines = vec![line(1, A, 1, B, 12, false)];
    let lots = vec![lot(1, B, 10, Some(1)), lot(2, B, 5, Some(2))];
    let b = build(3, A, 1, 1);
    let done = complete_build(&b, &lines, &lots).unwrap();
    assert_eq!(done.lots[0].quantity, 0);
    assert_eq!(done.lots[0].consumed, 10);
    assert_eq!(done.lots[1].quantity, 3);
    assert_eq!(done.lots[1].consumed, 2);
    assert_eq!(done.total_cost, 14);
    assert_eq!(done.unit_cost, 14);
    assert!(get_shortages(&vec![b], &lines, &lots, &parts, false).unwrap().is_empty());
}

#[test]
fn shortage_is_clamped_at_zero() {
    let parts = scenario_parts();
    let lines = vec![line(1, A, 1, B, 1, false)];
    let lots = vec![lot(1, B, 100, None)];
    let all = get_shortages(&vec![build(1, A, 1, 2)], &lines, &lots, &parts, true).unwrap();
    assert_eq!(all[0].needed, 2);
    assert_eq!(all[0].short, 0);
}

#[test]
fn another_open_build_only_raises_need() {
    let parts = scenario_parts();
    let lines = vec![line(1, A, 1, B, 2, false), line(2, 9, 1, B, 1, false), line(3, 9, 1, C, 4, false)];
    let lots = vec![lot(1, B, 5, None)];
    let mut builds = vec![build(1, A, 1, 2)];
    let before = get_shortages(&builds, &lines, &lots, &parts, true).unwrap();
    assert_eq!(before[0].needed, 4);
    assert_eq!(before[0].short, 0);
    builds.push(build(2, 9, 1, 3));
    let after = get_shortages(&builds, &lines, &lots, &parts, true).unwrap();
    assert_eq!(after[0].pid, B);
    assert_eq!(after[0].needed, 7);
    assert_eq!(after[0].short, 2);
    assert_eq!(after[1].pid, C);
    assert_eq!(after[1].needed, 12);
    assert_eq!(after[1].short, 12);
}

#[test]
fn completed_builds_and_no_stuff_lines_need_nothing() {
    let parts = scenario_parts();
    let lines = vec![line(1, A, 1, B, 2, false), line(2, A, 1, C, 50, true)];
    let lots = vec![lot(1, C, 3, Some(9))];
    let mut done = build(1, A, 1, 10);
    done.complete = true;
    assert!(get_shortages(&vec![done], &lines, &lots, &parts, true).unwrap().is_empty());
    let open = build(2, A, 1, 1);
    let all = get_shortages(&vec![open.clone()], &lines, &lots, &parts, true).unwrap();
    assert_eq!(all.len(), 1);
    assert_eq!(all[0].pid, B);
    let finished = complete_build(&open, &lines, &lots).unwrap();
    assert_eq!(finished.lots[0].quantity, 3);
    assert_eq!(finished.lots[0].consumed, 0);
    assert_eq!(finished.total_cost, 0);
}

#[test]
fn shortage_of_unknown_part_fails() {
    let parts = vec![part(A, "A", "A-MPN", "assembly")];
    let lines = scenario_lines();
    assert!(matches!(
        get_shortages(&vec![build(1, A, 1, 1)], &lines, &Vec::new(), &parts, true),
        Err(Error::NotFound)
    ));
}

#[test]
fn allocation_conserves_stock_with_sufficient_lots() {
    let lines = vec![line(1, A, 1, B, 4, false)];
    let lots = vec![lot(1, B, 3, None), lot(2, C, 9, None), lot(3, B, 6, Some(2)), lot(4, B, 5, None)];
    let done = complete_build(&build(1, A, 1, 2), &lines, &lots).unwrap();
    let before: i32 = lots.iter().filter(|l| l.part_id == B).map(|l| l.quantity).sum();
    let after: i32 = done.lots.iter().filter(|l| l.part_id == B).map(|l| l.quantity).sum();
    let consumed: i32 = done.lots.iter().filter(|l| l.part_id == B).map(|l| l.consumed).sum();
    assert_eq!(before - after, 8);
    assert_eq!(consumed, 8);
    assert_eq!(done.lots[1].quantity, 9);
    assert_eq!(done.lots[3].quantity, 5);
    assert_eq!(done.total_cost, 10);
}

#[test]
fn allocation_with_insufficient_stock_takes_what_there_is() {
    let lines = vec![line(1, A, 1, B, 10, false)];
    let lots = vec![lot(1, B, 3, Some(1)), lot(2, B, 4, None)];
    let done = complete_build(&build(1, A, 1, 1), &lines, &lots).unwrap();
    assert_eq!(done.lots[0].quantity, 0);
    assert_eq!(done.lots[1].quantity, 0);
    assert_eq!(done.lots[1].consumed, 4);
    assert_eq!(done.total_cost, 3);
}

#[test]
fn unit_cost_rounds_down() {
    let lines = vec![line(1, A, 1, B, 1, false)];
    let lots = vec![lot(1, B, 10, Some(5))];
    let done = complete_build(&build(1, A, 1, 3), &lines, &lots).unwrap();
    assert_eq!(done.total_cost, 15);
    assert_eq!(done.unit_cost, 5);
    let lots = vec![lot(1, B, 10, Some(7))];
    let done = complete_build(&build(1, A, 1, 2), &lines, &lots).unwrap();
    assert_eq!(done.total_cost, 14);
    assert_eq!(done.unit_cost, 7);
    let lots = vec![lot(1, B, 10, Some(7))];
    let done = complete_build(&build(1, A, 1, 4), &lines, &lots).unwrap();
    assert_eq!(done.total_cost, 28);
    assert_eq!(done.unit_cost, 7);
    let lines = vec![line(1, A, 1, B, 1, false)];
    let lots = vec![lot(1, B, 10, Some(10))];
    let done = complete_build(&build(-4, A, 1, 3), &lines, &lots).unwrap();
    assert_eq!(done.unit_cost, 10);
    assert_eq!(done.new_lot.notes, Some("Build -4".to_string()));
}

#[test]
fn complete_build_errors() {
    let lines = scenario_lines();
    let lots = vec![lot(1, B, 5, None)];
    let mut closed = build(1, A, 1, 1);
    closed.complete = true;
    assert!(matches!(complete_build(&closed, &lines, &lots), Err(Error::InvalidInput)));
    assert!(matches!(complete_build(&build(1, A, 1, 0), &lines, &lots), Err(Error::InvalidInput)));
    assert!(matches!(complete_build(&build(1, A, 2, 1), &lines, &lots), Err(Error::NotFound)));
    let mut full = lot(1, B, 5, None);
    full.consumed = i32::MAX - 1;
    assert!(matches!(complete_build(&build(1, A, 1, 1), &lines, &vec![full]), Err(Error::Overflow)));
    let costly = vec![lot(1, B, 2, Some(i64::MAX))];
    assert!(matches!(complete_build(&build(1, A, 1, 1), &lines, &costly), Err(Error::Overflow)));
}

#[test]
fn new_build_checks_version_and_quantity() {
    let p = part(A, "A", "A-MPN", "assembly");
    let nb = new_build(&p, 1, 5).unwrap();
    assert_eq!(nb.quantity, 5);
    assert!(!nb.complete);
    assert_eq!(nb.notes, "");
    assert_eq!(nb.part_id, A);
    assert_eq!(nb.part_ver, 1);
    assert!(matches!(new_build(&p, 2, 5), Err(Error::NotFound)));
    assert!(matches!(new_build(&p, 1, 0), Err(Error::InvalidInput)));
}

#[test]
fn inventory_records_need_known_parts() {
    let parts = scenario_parts();
    let records = vec![
        NewInventoryRecord { mpn: "B-MPN".to_string(), quantity: Some(10), notes: Some("reel".to_string()), unit_price: Some(12) },
        NewInventoryRecord { mpn: "C-MPN".to_string(), quantity: None, notes: None, unit_price: None },
        NewInventoryRecord { mpn: "A-MPN".to_string(), quantity: Some(-1), notes: None, unit_price: None },
    ];
    let entries = inventory_entries_from_records(&records, &parts).unwrap();
    assert_eq!(entries.len(), 2);
    assert_eq!(entries[0].part_id, B);
    assert_eq!(entries[0].quantity, 10);
    assert_eq!(entries[0].consumed, 0);
    assert_eq!(entries[0].unit_price, Some(12));
    assert_eq!(entries[0].notes, Some("reel".to_string()));
    assert_eq!(entries[1].part_id, A);
    assert_eq!(entries[1].quantity, -1);
    let mut bad = records.clone();
    bad.push(NewInventoryRecord { mpn: "X".to_string(), quantity: Some(1), notes: None, unit_price: None });
    assert!(matches!(inventory_entries_from_records(&bad, &parts), Err(Error::NotFound)));
}

#[test]
fn inventory_export_skips_empty_lots() {
    let parts = scenario_parts();
    let lots = vec![lot(1, B, 0, None), lot(2, C, 4, Some(3))];
    let rows = inventory_export_rows(&lots, &parts, false).unwrap();
    assert_eq!(rows.len(), 1);
    assert_eq!(rows[0].id, 2);
    assert_eq!(rows[0].mpn, "C-MPN");
    assert_eq!(inventory_export_rows(&lots, &parts, true).unwrap().len(), 2);
    let orphan = vec![lot(1, 42, 1, None)];
    assert!(matches!(inventory_export_rows(&orphan, &parts, true), Err(Error::NotFound)));
}

#[test]
fn build_pick_list() {
    let parts = scenario_parts();
    let lines = scenario_lines();
    let lots = vec![lot(1, B, 5, None), lot(2, B, 2, None)];
    let rows = build_export_rows(&build(1, A, 1, 3), &lines, &lots, &parts).unwrap();
    assert_eq!(rows.len(), 1);
    assert_eq!(rows[0].pn, "B");
    assert_eq!(rows[0].quantity_in_stock, 7);
    assert_eq!(rows[0].quantity_needed, 6);
    assert_eq!(rows[0].checked, None);
    let missing = vec![part(A, "A", "A-MPN", "assembly")];
    assert!(matches!(build_export_rows(&build(1, A, 1, 3), &lines, &lots, &missing), Err(Error::NotFound)));
}

#[test]
fn short_components_of_a_build() {
    let parts = scenario_parts();
    let lines = vec![line(1, A, 1, B, 2, false), line(2, A, 1, C, 1, true), line(3, 9, 1, C, 1, false)];
    let builds = vec![build(1, A, 1, 3), build(2, 9, 1, 1)];
    let report = get_shortages(&builds, &lines, &Vec::new(), &parts, true).unwrap();
    assert_eq!(report.iter().map(|s| s.pid).collect::<Vec<_>>(), vec![B, C]);
    assert_eq!(short_components(&report, &lines, &builds[0]), vec![B]);
    assert_eq!(short_components(&report, &lines, &builds[1]), vec![C]);
    let stocked = vec![lot(1, B, 6, None)];
    let report = get_shortages(&builds, &lines, &stocked, &parts, true).unwrap();
    assert!(short_components(&report, &lines, &builds[0]).is_empty());
}

#[test]
fn shortage_of_build_without_bill_fails() {
    let parts = scenario_parts();
    let lines = scenario_lines();
    let builds = vec![build(1, A, 1, 1), build(2, A, 2, 1)];
    assert!(matches!(get_shortages(&builds, &lines, &Vec::new(), &parts, true), Err(Error::NotFound)));
    let mut closed = build(2, A, 2, 1);
    closed.complete = true;
    let builds = vec![build(1, A, 1, 1), closed];
    assert_eq!(get_shortages(&builds, &lines, &Vec::new(), &parts, true).unwrap().len(), 1);
}

#[test]
fn no_stuff_lines_do_not_change_the_report() {
    let parts = scenario_parts();
    let builds = vec![build(1, A, 1, 2)];
    let lots = vec![lot(1, B, 1, None)];
    let with = vec![line(1, A, 1, B, 2, false), line(2, A, 1, C, 7, true), line(3, A, 1, B, 9, true)];
    let without = vec![line(1, A, 1, B, 2, false)];
    let a = get_shortages(&builds, &with, &lots, &parts, true).unwrap();
    let b = get_shortages(&builds, &without, &lots, &parts, true).unwrap();
    assert_eq!(a.len(), 1);
    assert_eq!(b.len(), 1);
    assert_eq!((a[0].pid, a[0].have, a[0].needed, a[0].short), (b[0].pid, b[0].have, b[0].needed, b[0].short));
    assert_eq!(a[0].needed, 4);
    assert_eq!(a[0].short, 3);
}

#[test]
fn bom_entries_show_parts_and_stock() {
    let parts = scenario_parts();
    let lines = scenario_lines();
    let lots = vec![lot(1, B, 5, None), lot(2, B, 2, None), lot(3, C, 1, None)];
    let rows = bom_entries(&lines, &lots, &parts).unwrap();
    assert_eq!(rows.len(), 2);
    assert_eq!(rows[0].pn, "B");
    assert_eq!(rows[0].mpn, "B-MPN");
    assert_eq!(rows[0].quantity, 2);
    assert_eq!(rows[0].refdes, "R1");
    assert_eq!(rows[0].inventory_qty, 7);
    assert!(!rows[0].no_stuff);
    assert_eq!(rows[1].descr, "capacitor");
    assert_eq!(rows[1].inventory_qty, 1);
    assert!(rows[1].no_stuff);
    let missing = vec![part(B, "B", "B-MPN", "resistor")];
    assert!(matches!(bom_entries(&lines, &lots, &missing), Err(Error::NotFound)));
}
