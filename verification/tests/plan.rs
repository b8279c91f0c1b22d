use k2g::model::{tool_label, RackSlot, StockTool, ToolKind, ToolStatus, ToolsetGenerationPolicy, ToolsetProfile};
use k2g::plan::{
    depth_reason, plan_tooling, resolve_router_tool, slot_number, step_bindings, step_headers, unresolved_tool,
    CncMachine, DepthDetail, StepOutcome, StepResolved,
};
use k2g::rack::SlotChange;
use k2g::steps::{DrillConfigRaw, EdgeConfigRaw, StepRaw};
use k2g::holes::DemandKind;
use k2g::plan::{format_error, AssignError, FaultReason, HoleFault};

fn router(id: &str, diameter_um: i64, text: &str) -> StockTool {
    StockTool {
        id: id.to_string(),
        kind: ToolKind::Routerbit,
        diameter_um,
        status: ToolStatus::InStock,
        display_name: format!("Router {text}"),
        diameter_text: text.to_string(),
    }
}

fn step(name: &str, cnc: Option<&str>, toolset: Option<&str>) -> StepRaw {
    StepRaw {
        name: name.to_string(),
        operations: vec!["drill_pth".to_string()],
        cnc_id: cnc.map(|s| s.to_string()),
        fixture_id: Some("fixture".to_string()),
        toolset_id: toolset.map(|s| s.to_string()),
        drill: DrillConfigRaw::default(),
        route_board: EdgeConfigRaw::default(),
        machines_back: false,
        pin_diameter_um: None,
    }
}

fn toolset(id: &str, spare: &[u8]) -> ToolsetProfile {
    ToolsetProfile {
        id: id.to_string(),
        name: id.to_string(),
        generation_policy: ToolsetGenerationPolicy::AllowReload,
        slots: spare.iter().map(|s| (*s, RackSlot { tool_id: None, locked: false, disabled: false })).collect(),
    }
}

fn resolved(ids: &[&str]) -> StepOutcome {
    StepOutcome::Resolved(StepResolved {
        summary: String::new(),
        rack: Vec::new(),
        requirements: Vec::new(),
        warnings: Vec::new(),
        tool_ids: ids.iter().map(|s| s.to_string()).collect(),
    })
}

#[test]
fn an_unresolved_requirement_shows_dashes() {
    let t = unresolved_tool();
    assert_eq!(t.slot, "—");
    assert_eq!(t.role, None);
    assert_eq!(t.diameter, "—");
    assert_eq!(t.delta_text, "—");
    assert_eq!(t.delta_class, "");
    assert!(!t.routed);
}

#[test]
fn a_router_row_shows_its_slot_and_diameter_and_no_delta() {
    let tools = vec![router("r1", 1000, "1.00mm"), router("r2", 2000, "2.00mm")];
    let rack = vec![("d1".to_string(), 1u8), ("r2".to_string(), 4u8)];
    let t = resolve_router_tool(&tools, "r2", &rack, Some("route"));
    assert_eq!(t.slot, "T4");
    assert_eq!(t.role, Some("route"));
    assert_eq!(t.diameter, "2.00mm");
    assert_eq!(t.delta_text, "exact");
    assert_eq!(t.delta_class, "tooling-delta-ok");
    assert!(t.routed);

    let missing = resolve_router_tool(&tools, "gone", &rack, None);
    assert_eq!(missing.slot, "—");
    assert_eq!(missing.diameter, "—");
}

#[test]
fn a_tool_in_two_slots_reports_the_later_one() {
    let rack = vec![("a".to_string(), 1u8), ("b".to_string(), 2u8), ("a".to_string(), 3u8)];
    assert_eq!(slot_number(&rack, "a"), Some(3));
    assert_eq!(slot_number(&rack, "b"), Some(2));
    assert_eq!(slot_number(&rack, "c"), None);
}

#[test]
fn a_bed_collision_is_explained_with_the_figures() {
    let d = DepthDetail {
        diameter: "0.80".to_string(),
        point_angle: "118".to_string(),
        breakthrough: "1.24".to_string(),
        bed_space: "0.50".to_string(),
        flute: Some("6.00".to_string()),
        needed_plunge: "2.10".to_string(),
        bed_ok: false,
    };
    assert_eq!(
        depth_reason(&d),
        "would reach the machine bed — a ⌀0.80mm 118° drill breaks through 1.24mm below the board but only \
         0.50mm of below-board space is available (raise the backboard thickness, lower the bed clearance, or route it)"
    );
}

#[test]
fn a_short_drill_is_explained_with_its_flute() {
    let d = DepthDetail {
        diameter: "3.18".to_string(),
        point_angle: "118".to_string(),
        breakthrough: "0.00".to_string(),
        bed_space: "0.00".to_string(),
        flute: Some("1.51".to_string()),
        needed_plunge: "2.00".to_string(),
        bed_ok: true,
    };
    assert_eq!(
        depth_reason(&d),
        "the drill is too short — a ⌀3.18mm bit needs 2.00mm of reach to break through but its flute is only 1.51mm \
         (use a longer bit or route it)"
    );
    let unset = DepthDetail { flute: None, ..d };
    assert!(depth_reason(&unset).contains("its flute is only unset (use"));
}

#[test]
fn step_headers_name_each_steps_machine() {
    let machines = vec![
        CncMachine { id: "m1".to_string(), name: "Router table".to_string(), atc_slot_count: 0 },
        CncMachine { id: "m2".to_string(), name: "ATC mill".to_string(), atc_slot_count: 8 },
    ];
    let steps = vec![step("Drill", Some("m2"), Some("t")), step("Cut", Some("m1"), None), step("Lost", Some("zz"), None)];
    let headers = step_headers(&steps, &machines);
    assert_eq!(headers.len(), 3);
    assert_eq!((headers[0].index, headers[0].name.as_str(), headers[0].cnc_name.as_str(), headers[0].is_atc), (0, "Drill", "ATC mill", true));
    assert_eq!((headers[1].index, headers[1].cnc_name.as_str(), headers[1].is_atc), (1, "Router table", false));
    assert_eq!((headers[2].index, headers[2].cnc_name.as_str(), headers[2].is_atc), (2, "", false));
}

#[test]
fn a_step_is_planned_only_with_profiles_that_exist() {
    let machines = vec![CncMachine { id: "m1".to_string(), name: "M".to_string(), atc_slot_count: 0 }];
    let toolsets = vec![toolset("t0", &[1]), toolset("t1", &[1, 2])];

    assert_eq!(step_bindings(&step("S", Some("m1"), Some("t1")), &toolsets, &machines).unwrap(), (1, 0));
    assert_eq!(
        step_bindings(&step("S", None, Some("t1")), &toolsets, &machines).unwrap_err(),
        "This step has no CNC profile selected."
    );
    assert_eq!(
        step_bindings(&step("S", Some("m1"), Some("nope")), &toolsets, &machines).unwrap_err(),
        "The step's toolset profile could not be found."
    );
    assert_eq!(
        step_bindings(&step("S", Some("nope"), Some("t0")), &toolsets, &machines).unwrap_err(),
        "The step's CNC profile could not be found."
    );
}

#[test]
fn without_a_profile_or_board_there_is_only_a_note() {
    let steps = vec![step("S", Some("m"), Some("t"))];
    let plan = plan_tooling(false, true, true, &steps, vec![StepOutcome::Empty], &vec![], &vec![]);
    assert_eq!(plan.note.as_deref(), Some("Select a machining profile to plan tooling."));
    assert!(plan.steps.is_empty() && plan.rack_schedule.is_none());

    let plan = plan_tooling(true, false, true, &steps, vec![StepOutcome::Empty], &vec![], &vec![]);
    assert_eq!(plan.note.as_deref(), Some("No board loaded — nothing to machine."));

    let plan = plan_tooling(true, true, false, &steps, vec![StepOutcome::Empty], &vec![], &vec![]);
    assert_eq!(plan.note.as_deref(), Some("Configuration store is not ready."));

    let plan = plan_tooling(true, true, true, &vec![], vec![], &vec![], &vec![]);
    assert_eq!(plan.note.as_deref(), Some("The machining profile has no steps."));
}

#[test]
fn the_rack_schedule_covers_only_steps_that_load_tools() {
    let tools = vec![router("A", 1000, "1.00mm"), router("B", 2000, "2.00mm")];
    let toolsets = vec![toolset("t", &[1, 2])];
    let steps = vec![
        step("Drill", Some("m"), Some("t")),
        step("Nothing", Some("m"), Some("t")),
        step("Route", Some("m"), Some("t")),
    ];
    let outcomes = vec![resolved(&["A"]), StepOutcome::Failed(vec!["no".to_string()]), resolved(&["A", "B"])];
    let plan = plan_tooling(true, true, true, &steps, outcomes, &tools, &toolsets);
    assert!(plan.note.is_none());
    assert_eq!(plan.steps.len(), 3);
    assert_eq!(plan.steps[1].name, "Nothing");
    assert!(matches!(plan.steps[1].outcome, StepOutcome::Failed(_)));

    let schedule = plan.rack_schedule.expect("two steps load tools");
    let columns: Vec<usize> = schedule.steps.iter().map(|c| c.step_index).collect();
    assert_eq!(columns, vec![0, 2]);
    assert_eq!(schedule.slots.len(), 2);
    assert_eq!(schedule.slots[0].slot, "T1");
    assert_eq!(schedule.slots[0].cells[0].tool.as_deref(), Some("Router 1.00mm (⌀1.00mm)"));
    assert_eq!(schedule.slots[0].cells[0].status, SlotChange::Load);
    assert_eq!(schedule.slots[0].cells[1].status, SlotChange::Kept);
    assert_eq!(schedule.slots[1].cells[0].status, SlotChange::Empty);
    assert_eq!(schedule.slots[1].cells[1].tool.as_deref(), Some("Router 2.00mm (⌀2.00mm)"));
    assert_eq!(schedule.slots[1].cells[1].status, SlotChange::Load);
}

#[test]
fn no_step_loading_tools_means_no_rack_schedule() {
    let steps = vec![step("S", Some("m"), Some("t"))];
    let plan = plan_tooling(true, true, true, &steps, vec![resolved(&[])], &vec![], &vec![toolset("t", &[1])]);
    assert!(plan.rack_schedule.is_none());
}

#[test]
fn a_tool_label_names_the_tool_and_its_diameter() {
    let tools = vec![router("r1", 1000, "1.00mm")];
    assert_eq!(tool_label(&tools, &"r1".to_string()), "Router 1.00mm (⌀1.00mm)");
    assert_eq!(tool_label(&tools, &"x".to_string()), "Unknown tool (x)");
}

#[test]
fn assignment_failures_read_as_one_line_per_problem() {

    let faults = vec![
        HoleFault {
            kind: DemandKind::Npth,
            reason: FaultReason::NoSizeMatch,
            depth: None,
            nearest: vec!["⌀3.00mm".to_string(), "⌀3.50mm".to_string()],
            target_um: 3200,
        },
        HoleFault {
            kind: DemandKind::CornerRelief,
            reason: FaultReason::DepthInfeasible,
            depth: None,
            nearest: vec![],
            target_um: 800,
        },
    ];
    let lines = format_error(
        &AssignError::UncoverableHoles(faults),
        &vec!["3.20mm".to_string(), "0.80mm".to_string()],
    );
    assert_eq!(
        lines,
        vec![
            "NPTH hole ⌀3.20mm: no in-stock drill matches within the allowance and routing is unavailable — nearest stock: ⌀3.00mm, ⌀3.50mm".to_string(),
            "Corner-relief hole ⌀0.80mm: the matching drill is too short to reach through, or would hit the bed".to_string(),
        ]
    );

    let lines = format_error(&AssignError::RackTooSmall { minimal: 9, capacity: 6 }, &vec![]);
    assert_eq!(
        lines,
        vec!["Rack too small: this step needs 9 tools but the toolset provides 6 usable slot(s). Add slots, enable routing fallback, widen the size allowances, or drop optional operations.".to_string()]
    );
}

#[test]
fn a_depth_fault_explains_itself_in_figures() {

    let depth = DepthDetail {
        diameter: "1.00".to_string(),
        point_angle: "118".to_string(),
        breakthrough: "0.00".to_string(),
        bed_space: "0.00".to_string(),
        flute: None,
        needed_plunge: "2.50".to_string(),
        bed_ok: true,
    };
    let lines = format_error(
        &AssignError::UncoverableHoles(vec![HoleFault {
            kind: DemandKind::Pth,
            reason: FaultReason::DepthInfeasible,
            depth: Some(depth.clone()),
            nearest: vec![],
            target_um: 1000,
        }]),
        &vec!["1.00mm".to_string()],
    );
    assert_eq!(lines[0], format!("PTH hole ⌀1.00mm: {}", depth_reason(&depth)));
}

#[test]
fn a_pinned_slot_shows_its_tool_fixed_at_every_step() {
    let tools = vec![router("A", 1000, "1.00mm"), router("P", 3000, "3.00mm")];
    let mut ts = toolset("t", &[2]);
    ts.slots.insert(0, (1, RackSlot { tool_id: Some("P".to_string()), locked: true, disabled: false }));
    let steps = vec![step("One", Some("m"), Some("t")), step("Two", Some("m"), Some("t"))];
    let plan = plan_tooling(true, true, true, &steps, vec![resolved(&["P", "A"]), resolved(&["A"])], &tools, &vec![ts]);
    let schedule = plan.rack_schedule.unwrap();
    assert_eq!(schedule.slots[0].slot, "T1");
    for cell in &schedule.slots[0].cells {
        assert_eq!(cell.tool.as_deref(), Some("Router 3.00mm (⌀3.00mm)"));
        assert_eq!(cell.status, SlotChange::Fixed);
    }
    assert_eq!(schedule.slots[1].cells[0].status, SlotChange::Load);
    assert_eq!(schedule.slots[1].cells[1].status, SlotChange::Kept);
}
