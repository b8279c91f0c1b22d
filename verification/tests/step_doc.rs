use k2g::step_doc::{
    read_allowance, read_drill_config, read_edge_config, read_retention, read_step, AllowanceDoc, DrillDoc, EdgeDoc,
    RetentionDoc, StepDoc,
};
use k2g::steps::{Allowance, RetentionRaw};

fn no_retention() -> RetentionDoc {
    RetentionDoc { mode: None, count: None, width_um: None, mouse_bites: None }
}

fn no_edge() -> EdgeDoc {
    EdgeDoc { cut: None, outline: no_retention(), cutouts: None, cutout_retention: no_retention(), finishing_um: None }
}

fn no_allowance() -> AllowanceDoc {
    AllowanceDoc { relative_ppm: None, max_um: None }
}

fn no_drill() -> DrillDoc {
    DrillDoc {
        route_fallback: None,
        drill_first: None,
        pilot: None,
        oblong: None,
        oversize: no_allowance(),
        undersize: no_allowance(),
    }
}

fn step(ops: &[&str]) -> StepDoc {
    StepDoc {
        name: Some("Drill".to_string()),
        operations: ops.iter().map(|s| s.to_string()).collect(),
        cnc: Some("c".to_string()),
        fixture: None,
        toolset: Some("t".to_string()),
        drill_pth: DrillDoc { oblong: Some("route".to_string()), ..no_drill() },
        drill_npth: DrillDoc { oblong: Some("drill_chain".to_string()), pilot: Some(true), ..no_drill() },
        route_board: EdgeDoc { cut: Some("route".to_string()), ..no_edge() },
        mill_board: EdgeDoc { cut: Some("mill".to_string()), finishing_um: Some(0), ..no_edge() },
        board_face: Some("Back".to_string()),
        pin_diameter_um: Some(3200),
    }
}

#[test]
fn every_retention_field_falls_back_on_its_own() {
    let default = RetentionRaw::defaults(4);
    let r = read_retention(&no_retention(), default);
    assert!(r.tabs && r.count == 4 && r.width_um == 2000 && !r.mouse_bites);

    let doc = RetentionDoc { mode: Some("none".to_string()), count: Some(-1), width_um: Some(1500), mouse_bites: Some(true) };
    let r = read_retention(&doc, default);
    assert!(!r.tabs, "mode none means no tabs");
    assert_eq!(r.count, 4, "a negative count is no count");
    assert_eq!(r.width_um, 1500);
    assert!(r.mouse_bites);

    let tabs = RetentionDoc { mode: Some("tabs".to_string()), count: Some(6), ..no_retention() };
    let r = read_retention(&tabs, RetentionRaw::defaults(2));
    assert!(r.tabs && r.count == 6);
}

#[test]
fn an_empty_edge_block_is_the_schema_default() {
    let e = read_edge_config(&no_edge());
    assert_eq!(e.cut, "route");
    assert_eq!(e.outline.count, 4);
    assert_eq!(e.cutout_retention.count, 2);
    assert!(e.cutouts);
    assert_eq!(e.finishing_um, 100);
}

#[test]
fn drill_settings_and_allowances_fall_back_field_by_field() {
    let d = read_drill_config(&no_drill());
    assert!(!d.route_fallback && d.drill_first && !d.pilot);
    assert_eq!(d.oblong, "drill_ends_then_route");
    assert_eq!((d.oversize.relative_ppm, d.oversize.max_um, d.undersize.relative_ppm, d.undersize.max_um), (80_000, 100, 60_000, 80));

    let a = read_allowance(&AllowanceDoc { relative_ppm: Some(50_000), max_um: None }, Allowance { relative_ppm: 1, max_um: 2 });
    assert_eq!((a.relative_ppm, a.max_um), (50_000, 2));
}

#[test]
fn the_drill_config_comes_from_the_plated_operation_first() {
    let s = read_step(&step(&["drill_npth", "drill_pth"]));
    assert_eq!(s.drill.oblong, "route");
    let s = read_step(&step(&["drill_npth"]));
    assert_eq!(s.drill.oblong, "drill_chain");
    assert!(s.drill.pilot);
    let s = read_step(&step(&["route_board"]));
    assert_eq!(s.drill.oblong, "drill_ends_then_route");
}

#[test]
fn milling_the_board_reads_the_mill_block() {
    assert_eq!(read_step(&step(&["mill_board"])).route_board.cut, "mill");
    assert_eq!(read_step(&step(&["route_board"])).route_board.cut, "route");
    assert_eq!(read_step(&step(&[])).route_board.finishing_um, 100);
}

#[test]
fn only_a_step_that_drills_pins_has_a_pin_diameter() {
    assert_eq!(read_step(&step(&["drill_pth"])).pin_diameter_um, None);
    assert_eq!(read_step(&step(&["drill_locating_pins"])).pin_diameter_um, Some(3200));
}

#[test]
fn the_face_and_bindings_are_carried_over() {
    let s = read_step(&step(&["drill_pth"]));
    assert!(s.machines_back, "any case of 'back'");
    assert_eq!(s.name, "Drill");
    assert_eq!(s.operations, vec!["drill_pth".to_string()]);
    assert_eq!(s.cnc_id.as_deref(), Some("c"));
    assert_eq!(s.fixture_id, None);
    assert_eq!(s.toolset_id.as_deref(), Some("t"));
    let front = StepDoc { board_face: Some("front".to_string()), name: None, ..step(&[]) };
    let s = read_step(&front);
    assert!(!s.machines_back);
    assert_eq!(s.name, "");
    let backwards = StepDoc { board_face: Some("backs".to_string()), ..step(&[]) };
    assert!(!read_step(&backwards).machines_back);
}
