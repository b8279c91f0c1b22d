use k2g::holes::{BoardHole, HoleKind};
use k2g::model::{RackSlot, StockTool, ToolKind, ToolStatus, ToolsetGenerationPolicy, ToolsetProfile};
use k2g::plan::CncMachine;
use k2g::rack_spec::OverflowPolicy;
use k2g::routing::PinTool;
use k2g::step_setup::{prepare_step, warning_text, PlanWarning, StepPrelude, StepSetup};
use k2g::steps::{DrillConfigRaw, EdgeConfigRaw, StepRaw};

fn tool(id: &str, kind: ToolKind, diameter_um: i64, text: &str) -> StockTool {
    StockTool {
        id: id.to_string(),
        kind,
        diameter_um,
        status: ToolStatus::InStock,
        display_name: format!("{id} {text}"),
        diameter_text: text.to_string(),
    }
}

fn step(operations: &[&str]) -> StepRaw {
    StepRaw {
        name: "Top".to_string(),
        operations: operations.iter().map(|s| s.to_string()).collect(),
        cnc_id: Some("cnc".to_string()),
        fixture_id: Some("fixture".to_string()),
        toolset_id: Some("ts".to_string()),
        drill: DrillConfigRaw::default(),
        route_board: EdgeConfigRaw::default(),
        machines_back: false,
        pin_diameter_um: None,
    }
}

fn toolsets() -> Vec<ToolsetProfile> {
    vec![ToolsetProfile {
        id: "ts".to_string(),
        name: "Shop".to_string(),
        generation_policy: ToolsetGenerationPolicy::AllowHybrid,
        slots: vec![
            (1, RackSlot { tool_id: Some("d08".to_string()), locked: true, disabled: false }),
            (2, RackSlot { tool_id: None, locked: false, disabled: false }),
            (3, RackSlot { tool_id: None, locked: false, disabled: false }),
        ],
    }]
}

fn machines() -> Vec<CncMachine> {
    vec![CncMachine { id: "cnc".to_string(), name: "Mill".to_string(), atc_slot_count: 6 }]
}

fn ready(p: StepPrelude) -> StepSetup {
    match p {
        StepPrelude::Ready(s) => s,
        StepPrelude::Empty => panic!("expected a ready step, got an empty one"),
        StepPrelude::Failed(lines) => panic!("expected a ready step, got {lines:?}"),
    }
}

#[test]
fn a_step_without_a_toolset_binding_is_refused() {
    let mut raw = step(&["drill_pth"]);
    raw.toolset_id = None;
    match prepare_step(&raw, &toolsets(), &machines(), &Vec::new(), &Vec::new()) {
        StepPrelude::Failed(line) => assert_eq!(line, "This step has no toolset profile selected."),
        _ => panic!("a step without a toolset must be refused"),
    }
}

#[test]
fn an_unknown_cnc_is_refused_after_the_toolset_is_found() {
    let mut raw = step(&["drill_pth"]);
    raw.cnc_id = Some("elsewhere".to_string());
    match prepare_step(&raw, &toolsets(), &machines(), &Vec::new(), &Vec::new()) {
        StepPrelude::Failed(line) => assert_eq!(line, "The step's CNC profile could not be found."),
        _ => panic!("an unknown CNC must be refused"),
    }
}

#[test]
fn a_step_that_machines_nothing_is_empty() {
    let holes = vec![BoardHole { kind: HoleKind::PadNpth, drill_x_um: Some(3000), drill_y_um: Some(3000) }];
    let p = prepare_step(&step(&["drill_pth"]), &toolsets(), &machines(), &Vec::new(), &holes);
    assert!(matches!(p, StepPrelude::Empty));
}

#[test]
fn a_missing_outline_router_and_an_unroutable_slot_are_warned_in_order() {
    let tools = vec![tool("d08", ToolKind::Drillbit, 800, "0.80mm"), tool("r2", ToolKind::Routerbit, 2000, "2.00mm")];
    let holes = vec![
        BoardHole { kind: HoleKind::PadPth, drill_x_um: Some(800), drill_y_um: Some(800) },
        BoardHole { kind: HoleKind::PadPth, drill_x_um: Some(1000), drill_y_um: Some(3000) },
    ];
    let s = ready(prepare_step(&step(&["drill_pth"]), &toolsets(), &machines(), &tools, &holes));
    assert_eq!(s.toolset, 0);
    assert_eq!(s.machine, 0);
    assert_eq!(s.atc_slots, 6);
    assert_eq!(s.groups.len(), 2);
    assert!(s.oblong_drills && s.oblong_routes);
    assert_eq!(s.routers.outline, None);
    assert_eq!(s.routers.unroutable_widths, vec![1000]);
    assert_eq!(s.warnings, vec![PlanWarning::UnroutableSlot { width_um: 1000 }]);
    assert_eq!(s.rack.capacity, 3);
    assert_eq!(s.rack.spare_slots, vec![2, 3]);
    assert_eq!(s.rack.policy, OverflowPolicy::AllowHybrid);
    assert!(s.rack.mandatory.is_empty());

    let no_router = vec![tool("d08", ToolKind::Drillbit, 800, "0.80mm")];
    let s = ready(prepare_step(&step(&["drill_pth", "route_board"]), &toolsets(), &machines(), &no_router, &holes));
    assert_eq!(
        s.warnings,
        vec![PlanWarning::NoOutlineRouter, PlanWarning::UnroutableSlot { width_um: 1000 }]
    );
}

#[test]
fn the_routers_and_the_pin_tool_are_reserved_in_the_rack() {
    let tools = vec![
        tool("d08", ToolKind::Drillbit, 800, "0.80mm"),
        tool("r1", ToolKind::Routerbit, 1000, "1.00mm"),
        tool("r2", ToolKind::Routerbit, 2000, "2.00mm"),
    ];
    let holes = vec![BoardHole { kind: HoleKind::PadPth, drill_x_um: Some(1500), drill_y_um: Some(3000) }];
    let mut raw = step(&["drill_pth", "route_board", "drill_locating_pins"]);
    raw.pin_diameter_um = Some(3000);
    let s = ready(prepare_step(&raw, &toolsets(), &machines(), &tools, &holes));
    assert_eq!(s.routers.outline, Some("r1".to_string()));
    assert_eq!(s.routers.by_slot_width_um, vec![(1500, "r1".to_string())]);
    assert_eq!(s.pin_tool, Some(PinTool::Router { id: "r2".to_string(), diameter_um: 2000 }));
    assert_eq!(s.warnings, vec![PlanWarning::PinMilled]);
    assert_eq!(s.rack.mandatory, vec!["r1".to_string(), "r2".to_string()]);
}

#[test]
fn a_pin_step_with_no_pin_tool_is_warned_and_not_empty_only_when_it_has_work() {
    let mut raw = step(&["drill_locating_pins"]);
    raw.pin_diameter_um = Some(3000);
    let p = prepare_step(&raw, &toolsets(), &machines(), &Vec::new(), &Vec::new());
    assert!(matches!(p, StepPrelude::Empty));

    let tools = vec![tool("d30", ToolKind::Drillbit, 3000, "3.00mm")];
    let s = ready(prepare_step(&raw, &toolsets(), &machines(), &tools, &Vec::new()));
    assert_eq!(s.pin_tool, Some(PinTool::Drill { id: "d30".to_string(), diameter_um: 3000 }));
    assert!(s.warnings.is_empty());
    assert_eq!(s.rack.mandatory, vec!["d30".to_string()]);
}

#[test]
fn a_drill_only_strategy_needs_no_slot_router() {
    let mut raw = step(&["drill_pth"]);
    raw.drill.oblong = "drill_chain".to_string();
    let holes = vec![BoardHole { kind: HoleKind::PadPth, drill_x_um: Some(1000), drill_y_um: Some(3000) }];
    let s = ready(prepare_step(&raw, &toolsets(), &machines(), &Vec::new(), &holes));
    assert!(s.oblong_drills);
    assert!(!s.oblong_routes);
    assert!(s.routers.unroutable_widths.is_empty());
    assert!(s.warnings.is_empty());
}

#[test]
fn each_warning_reads_as_the_operator_sees_it() {
    let tools = vec![tool("r2", ToolKind::Routerbit, 2000, "2.00mm")];
    assert_eq!(
        warning_text(PlanWarning::NoOutlineRouter, &tools, ""),
        "No router in stock for the board outline — outline routing is unresolved."
    );
    assert_eq!(
        warning_text(PlanWarning::UnroutableSlot { width_um: 1000 }, &tools, "1.00mm"),
        "Slot 1.00mm is narrower than the smallest router in stock (2.00mm), so it cannot be milled. \
         Stock a router no larger than 1.00mm, or set this step's oblong strategy to drill only."
    );
    assert_eq!(
        warning_text(PlanWarning::NoPinTool { diameter_um: 3000 }, &tools, "3.00mm"),
        "No 3.00mm drill in stock for the locating pins, and no router narrow enough to mill one. \
         A registration hole is never made to a nearly-right size, so the step cannot run — stock a 3.00mm drill."
    );
    assert_eq!(
        warning_text(PlanWarning::PinMilled, &tools, ""),
        "No exact-size drill for the locating pins, so their holes are milled to size with a router. \
         Correct, but slower than drilling them."
    );
}
