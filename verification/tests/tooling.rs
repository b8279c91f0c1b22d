use std::collections::BTreeSet;

use k2g::holes::{collect_hole_groups, BoardHole, DemandKind, HoleGroup, HoleKind};
use k2g::model::{RackSlot, StockTool, ToolKind, ToolStatus, ToolsetGenerationPolicy, ToolsetProfile};
use k2g::rack::{
    build_rack_schedule,
    rack_for_step, schedule_spare_slots, RackCell, RackSchedule, RackSlotSchedule, RackStepColumn, SlotChange,
};
use k2g::routing::{pick_pin_tool, plan_routers, PinTool};
use k2g::steps::{locating_pin_faults, missing_bindings, step_targets, DrillConfigRaw, EdgeConfigRaw, StepRaw, StepTargets};
use k2g::routing::{stock_routers, unroutable_slot_warning};

fn hole(kind: HoleKind, dx_um: i64, dy_um: i64) -> BoardHole {
    BoardHole { kind, drill_x_um: Some(dx_um), drill_y_um: Some(dy_um) }
}

/// A stock router of the given diameter.
fn router(id: &str, diameter_um: i64) -> StockTool {
    StockTool {
        id: id.to_string(),
        kind: ToolKind::Routerbit,
        diameter_um,
        status: ToolStatus::InStock,
        display_name: format!("Router {}mm", diameter_um as f64 / 1000.0),
        diameter_text: format!("{}mm", diameter_um as f64 / 1000.0),
    }
}

/// A stock drill of the given diameter.
fn drill_bit(id: &str, diameter_um: i64) -> StockTool {
    StockTool {
        kind: ToolKind::Drillbit,
        display_name: format!("Drill {}mm", diameter_um as f64 / 1000.0),
        ..router(id, diameter_um)
    }
}

/// A toolset with the given tools pinned in slots 1, 2, ... (empty = nothing fixed).
fn toolset_with_fixed(fixed: &[&str]) -> ToolsetProfile {
    ToolsetProfile {
        id: "ts".to_string(),
        name: "Test".to_string(),
        generation_policy: ToolsetGenerationPolicy::AllowReload,
        slots: fixed
            .iter()
            .enumerate()
            .map(|(i, id)| {
                (i as u8 + 1, RackSlot { tool_id: Some((*id).to_string()), locked: true, disabled: false })
            })
            .collect(),
    }
}

fn slot_group(width_um: i64, length_um: i64) -> HoleGroup {
    HoleGroup { kind: DemandKind::Pth, target_um: length_um, minor_um: Some(width_um), count: 1 }
}

fn step_on(name: &str, machines_back: bool) -> StepRaw {
    StepRaw {
        name: name.to_string(),
        operations: vec!["drill_pth".to_string()],
        cnc_id: Some("cnc".to_string()),
        fixture_id: Some("fixture".to_string()),
        toolset_id: Some("toolset".to_string()),
        drill: DrillConfigRaw::default(),
        route_board: EdgeConfigRaw::default(),
        machines_back,
        pin_diameter_um: None,
    }
}

fn pin_step(name: &str, machines_back: bool) -> StepRaw {
    StepRaw {
        operations: vec!["drill_locating_pins".to_string()],
        pin_diameter_um: Some(3200),
        ..step_on(name, machines_back)
    }
}

// --- hole groups -------------------------------------------------------------

#[test]
fn groups_round_holes_by_size_and_counts_them() {
    let holes = vec![hole(HoleKind::PadPth, 800, 800), hole(HoleKind::PadPth, 800, 800), hole(HoleKind::Via, 300, 300)];
    let groups = collect_hole_groups(&holes, true, false);
    assert_eq!(groups.len(), 2, "two distinct sizes");
    let g08 = groups.iter().find(|g| g.target_um == 800).unwrap();
    assert_eq!(g08.count, 2);
    assert!(g08.minor_um.is_none());
    assert_eq!(g08.kind, DemandKind::Pth);
}

#[test]
fn detects_oblong_and_keeps_major_and_minor_axes() {
    let holes = vec![hole(HoleKind::PadNpth, 2000, 4000)];
    let groups = collect_hole_groups(&holes, false, true);
    assert_eq!(groups.len(), 1);
    assert_eq!(groups[0].target_um, 4000, "major axis is the target");
    assert_eq!(groups[0].minor_um, Some(2000), "minor axis retained");
    assert_eq!(groups[0].kind, DemandKind::Npth);
}

#[test]
fn filters_holes_by_enabled_operation() {
    let holes = vec![hole(HoleKind::PadPth, 800, 800), hole(HoleKind::PadNpth, 3000, 3000)];
    let groups = collect_hole_groups(&holes, true, false);
    assert_eq!(groups.len(), 1);
    assert_eq!(groups[0].kind, DemandKind::Pth);
}

#[test]
fn every_hole_is_counted_in_exactly_one_group() {
    let holes = vec![
        hole(HoleKind::PadPth, 800, 800),
        hole(HoleKind::Via, 300, 300),
        hole(HoleKind::PadPth, 800, 800),
        hole(HoleKind::PadNpth, 3000, 3000),
        hole(HoleKind::Via, 300, 300),
        hole(HoleKind::PadNpth, 1000, 2500),
    ];
    let groups = collect_hole_groups(&holes, true, true);
    let total: usize = groups.iter().map(|g| g.count).sum();
    assert_eq!(total, holes.len());
    assert_eq!(groups.len(), 4);
}

// --- routing tool selection --------------------------------------------------

#[test]
fn a_router_wider_than_the_slot_is_never_selected() {
    let tools = vec![router("wide", 1200)];
    let toolset = toolset_with_fixed(&[]);
    let groups = vec![slot_group(400, 3000)];

    let plan = plan_routers(&tools, &toolset, &groups, false, true);
    assert_eq!(plan.for_group(&groups[0]), None, "1.2mm cutter rejected for a 0.4mm slot");
    assert_eq!(plan.unroutable_widths.len(), 1, "and the slot is reported unroutable");
    assert!(plan.mandatory_ids().is_empty(), "no router is reserved in the rack for it");
}

#[test]
fn the_slot_router_is_the_largest_that_fits() {
    let tools = vec![router("tiny", 200), router("exact", 400), router("wide", 1200)];
    let toolset = toolset_with_fixed(&[]);
    let groups = vec![slot_group(400, 3000)];

    let plan = plan_routers(&tools, &toolset, &groups, false, true);
    assert_eq!(plan.for_group(&groups[0]), Some("exact"));
    assert!(plan.unroutable_widths.is_empty());
}

#[test]
fn a_fixed_router_that_fits_beats_a_larger_stock_one() {
    let tools = vec![router("fixed", 300), router("bigger", 400)];
    let toolset = toolset_with_fixed(&["fixed"]);
    let groups = vec![slot_group(400, 3000)];

    let plan = plan_routers(&tools, &toolset, &groups, false, true);
    assert_eq!(plan.for_group(&groups[0]), Some("fixed"));
}

#[test]
fn the_outline_and_slot_routers_are_chosen_separately() {
    let tools = vec![router("small", 400), router("big", 2000)];
    let toolset = toolset_with_fixed(&[]);
    let groups = vec![slot_group(1000, 4000)];

    let plan = plan_routers(&tools, &toolset, &groups, true, true);
    assert_eq!(plan.outline.as_deref(), Some("small"), "outline prefers the smallest");
    assert_eq!(plan.for_group(&groups[0]), Some("small"), "2.0mm will not enter a 1.0mm slot");

    let wide = vec![slot_group(2500, 8000)];
    let plan = plan_routers(&tools, &toolset, &wide, true, true);
    assert_eq!(plan.for_group(&wide[0]), Some("big"));
    assert_eq!(plan.mandatory_ids(), vec!["big".to_string(), "small".to_string()]);
}

#[test]
fn slot_routers_are_only_resolved_when_the_strategy_routes() {
    let tools = vec![router("fits", 400)];
    let toolset = toolset_with_fixed(&[]);
    let groups = vec![slot_group(400, 3000)];

    let plan = plan_routers(&tools, &toolset, &groups, false, false);
    assert_eq!(plan.for_group(&groups[0]), None, "drill-only strategy reserves no router");
    assert!(plan.unroutable_widths.is_empty(), "and reports nothing unroutable");

    let round = HoleGroup { kind: DemandKind::Pth, target_um: 800, minor_um: None, count: 1 };
    let plan = plan_routers(&tools, &toolset, &groups, false, true);
    assert_eq!(plan.for_group(&round), None, "a round hole is drilled, not milled");
}

#[test]
fn an_out_of_stock_router_is_never_the_outline_router() {
    let mut gone = router("gone", 300);
    gone.status = ToolStatus::OutOfStock;
    let tools = vec![gone, router("kept", 800)];
    let plan = plan_routers(&tools, &toolset_with_fixed(&[]), &vec![], true, false);
    assert_eq!(plan.outline.as_deref(), Some("kept"));
}

#[test]
fn a_fixed_router_is_the_outline_router_even_when_larger() {
    let tools = vec![router("small", 300), router("pinned", 1500)];
    let plan = plan_routers(&tools, &toolset_with_fixed(&["pinned"]), &vec![], true, false);
    assert_eq!(plan.outline.as_deref(), Some("pinned"));
}

// --- locating-pin tool -------------------------------------------------------

#[test]
fn a_pin_hole_is_never_drilled_to_a_nearly_right_size() {
    let near_misses = vec![drill_bit("under", 3100), drill_bit("over", 3300)];
    assert_eq!(
        pick_pin_tool(&near_misses, &toolset_with_fixed(&[]), 3200),
        None,
        "0.1mm out is out — no drill, and no router in stock either"
    );

    let mut with_exact = near_misses.clone();
    with_exact.push(drill_bit("exact", 3200));
    assert_eq!(
        pick_pin_tool(&with_exact, &toolset_with_fixed(&[]), 3200),
        Some(PinTool::Drill { id: "exact".into(), diameter_um: 3200 }),
        "the exact drill is taken, never the near miss"
    );
}

#[test]
fn without_an_exact_drill_the_pin_hole_is_milled_to_size() {
    let tools = vec![drill_bit("wrong", 3000), router("small", 1000), router("big", 2000)];
    assert_eq!(
        pick_pin_tool(&tools, &toolset_with_fixed(&[]), 3200),
        Some(PinTool::Router { id: "big".into(), diameter_um: 2000 }),
        "largest that fits: stiffest, fewest passes"
    );

    let too_wide = vec![router("huge", 4000)];
    assert_eq!(pick_pin_tool(&too_wide, &toolset_with_fixed(&[]), 3200), None);
}

#[test]
fn a_fixed_exact_drill_beats_an_equally_exact_loose_one() {
    let tools = vec![drill_bit("loose", 3200), drill_bit("fixed", 3200)];
    assert_eq!(
        pick_pin_tool(&tools, &toolset_with_fixed(&["fixed"]), 3200),
        Some(PinTool::Drill { id: "fixed".into(), diameter_um: 3200 })
    );
}

#[test]
fn an_out_of_stock_drill_is_not_a_pin_tool() {
    let tools = vec![StockTool { status: ToolStatus::OutOfStock, ..drill_bit("exact", 3200) }];
    assert_eq!(pick_pin_tool(&tools, &toolset_with_fixed(&[]), 3200), None);
}

#[test]
fn the_pin_tool_id_names_the_stock_tool() {
    assert_eq!(PinTool::Drill { id: "d".into(), diameter_um: 3200 }.id(), "d");
    assert_eq!(PinTool::Router { id: "r".into(), diameter_um: 1000 }.id(), "r");
}

// --- locating pins across steps ------------------------------------------------

#[test]
fn a_single_sided_job_needs_no_locating_pins() {
    assert!(locating_pin_faults(&vec![]).is_empty(), "no steps, nothing to fault");
    assert!(
        locating_pin_faults(&vec![step_on("Drill", false), step_on("Cut out", false)]).is_empty(),
        "an all-front profile generates"
    );
    assert!(
        locating_pin_faults(&vec![step_on("A", true), step_on("B", true)]).is_empty(),
        "and so does an all-back one — the board is mounted that way, not turned over"
    );
}

#[test]
fn changing_faces_without_pins_is_refused() {
    let faults = locating_pin_faults(&vec![step_on("Drill front", false), step_on("Drill back", true)]);
    assert_eq!(faults.len(), 1, "{faults:?}");
    assert!(faults[0].contains("steps 1 and 2 machine different faces"), "names the pair: {}", faults[0]);
    assert!(faults[0].contains("add one first"), "says what to do: {}", faults[0]);

    assert!(
        locating_pin_faults(&vec![pin_step("Pins", false), step_on("Drill front", false), step_on("Drill back", true)])
            .is_empty(),
        "with pins drilled first, the same profile is fine"
    );
}

#[test]
fn the_reported_pair_is_where_the_board_turns_over() {
    let faults =
        locating_pin_faults(&vec![step_on("Drill", false), step_on("Route", false), step_on("Back face", true)]);
    assert_eq!(faults.len(), 1, "{faults:?}");
    assert!(faults[0].contains("steps 1 and 3"), "{}", faults[0]);
}

#[test]
fn pins_must_be_the_first_step() {
    let faults = locating_pin_faults(&vec![step_on("Drill", false), pin_step("Pins", false)]);
    assert!(
        faults.iter().any(|f| f.contains("step 2 'Pins'") && f.contains("not the first step")),
        "{faults:?}"
    );
}

#[test]
fn pins_may_not_be_drilled_from_the_back() {
    let faults = locating_pin_faults(&vec![pin_step("Pins", true)]);
    assert!(
        faults.iter().any(|f| f.contains("back face") && f.contains("set its board face to front")),
        "{faults:?}"
    );
}

#[test]
fn pins_after_the_face_change_do_not_register_what_came_before() {
    let faults =
        locating_pin_faults(&vec![step_on("Drill front", false), pin_step("Pins", true), step_on("Drill back", true)]);
    assert!(faults.iter().any(|f| f.contains("machine different faces")), "the face change is still unregistered: {faults:?}");
}

#[test]
fn a_step_missing_a_profile_is_refused_and_says_which() {
    let step = |cnc: bool, fixture: bool, toolset: bool| StepRaw {
        name: "Step".into(),
        operations: vec!["drill_pth".into()],
        cnc_id: if cnc { Some("cnc".to_string()) } else { None },
        fixture_id: if fixture { Some("fixture".to_string()) } else { None },
        toolset_id: if toolset { Some("toolset".to_string()) } else { None },
        drill: DrillConfigRaw::default(),
        route_board: EdgeConfigRaw::default(),
        machines_back: false,
        pin_diameter_um: None,
    };
    assert_eq!(missing_bindings(&step(true, true, true)), None, "all three set");
    assert_eq!(missing_bindings(&step(false, true, true)).as_deref(), Some("This step has no CNC profile selected."));
    assert_eq!(
        missing_bindings(&step(true, false, true)).as_deref(),
        Some("This step has no fixture profile selected.")
    );
    assert_eq!(
        missing_bindings(&step(false, false, false)).as_deref(),
        Some("This step has no CNC, no fixture, no toolset profile selected."),
        "a fresh step names all three at once rather than one per attempt"
    );
}

// --- the cross-step rack ---------------------------------------------------------

#[test]
fn cross_step_schedule_keeps_reused_tools_in_the_same_slot() {
    let fixed: Vec<String> = vec!["fix".to_string()];
    let steps = vec![
        (0, "s1".to_string(), vec!["fix".to_string(), "A".to_string(), "B".to_string()]),
        (1, "s2".to_string(), vec!["fix".to_string(), "B".to_string(), "C".to_string()]),
    ];
    let snaps = schedule_spare_slots(&[2, 3, 4], &fixed, &steps);

    let (state1, changed1) = &snaps[0];
    assert_eq!(state1.get(&2), Some(&"A".to_string()));
    assert_eq!(state1.get(&3), Some(&"B".to_string()));
    assert_eq!(changed1, &BTreeSet::from([2, 3]));

    let (state2, changed2) = &snaps[1];
    assert_eq!(state2.get(&3), Some(&"B".to_string()), "B stays put across steps");
    assert_eq!(state2.get(&4), Some(&"C".to_string()));
    assert_eq!(state2.get(&2), Some(&"A".to_string()), "idle tool is left loaded");
    assert_eq!(changed2, &BTreeSet::from([4]), "only the new tool's slot changes");
}

#[test]
fn the_rack_is_projected_by_step_index_not_by_column_position() {
    let schedule = RackSchedule {
        steps: vec![RackStepColumn { step_index: 0 }, RackStepColumn { step_index: 2 }],
        slots: vec![RackSlotSchedule {
            slot: "T1".to_string(),
            cells: vec![
                RackCell { tool: Some("drill".into()), status: SlotChange::Load },
                RackCell { tool: Some("router".into()), status: SlotChange::Kept },
            ],
        }],
    };

    let step0 = rack_for_step(&schedule, 0).expect("step 0 has a column");
    assert_eq!(step0[0].tool.as_deref(), Some("drill"));
    assert_eq!(step0[0].status, SlotChange::Load);

    assert_eq!(rack_for_step(&schedule, 1), None, "a step with no column has no rack");
    let step2 = rack_for_step(&schedule, 2).expect("step 2 has a column");
    assert_eq!(step2[0].tool.as_deref(), Some("router"));
    assert_eq!(step2[0].status, SlotChange::Kept, "carried over from an earlier step");

    assert_eq!(rack_for_step(&schedule, 9), None, "a step beyond the profile has none");
}

#[test]
fn overflow_reuses_a_slot_by_evicting_a_tool_not_needed_this_step() {
    let snaps = schedule_spare_slots(
        &[1],
        &Vec::new(),
        &[(0, "s1".into(), vec!["A".into()]), (1, "s2".into(), vec!["B".into()])],
    );
    assert_eq!(snaps[0].0.get(&1), Some(&"A".to_string()));
    assert_eq!(snaps[1].0.get(&1), Some(&"B".to_string()), "B evicts the idle A");
    assert!(snaps[1].1.contains(&1), "the reload counts as a change");
}

#[test]
fn a_tool_needed_again_is_never_evicted_while_an_idle_one_can_be() {
    // Two spare slots. Step 2 needs A again and a new C: C must evict the idle B.
    let snaps = schedule_spare_slots(
        &[1, 2],
        &Vec::new(),
        &[
            (0, "s1".into(), vec!["A".into(), "B".into()]),
            (1, "s2".into(), vec!["A".into(), "C".into()]),
        ],
    );
    assert_eq!(snaps[1].0.get(&1), Some(&"A".to_string()), "A stays in its slot");
    assert_eq!(snaps[1].0.get(&2), Some(&"C".to_string()), "C takes B's slot");
    assert_eq!(snaps[1].1, BTreeSet::from([2]));
}

#[test]
fn fixed_tools_never_occupy_a_spare_slot() {
    let snaps = schedule_spare_slots(&[5], &vec!["pinned".to_string()], &[(0, "s1".into(), vec!["pinned".into()])]);
    assert!(snaps[0].0.is_empty());
    assert!(snaps[0].1.is_empty());
}

#[test]
fn a_requirement_is_labelled_by_kind_and_size() {
    let round = HoleGroup { kind: DemandKind::Pth, target_um: 800, minor_um: None, count: 2 };
    assert_eq!(round.label("0.80mm", "unused"), "PTH hole ⌀0.80mm");
    let slot = HoleGroup { kind: DemandKind::Npth, target_um: 4000, minor_um: Some(2000), count: 1 };
    assert_eq!(slot.label("4.00mm", "2.00mm"), "NPTH oblong 4.00mm × 2.00mm");
    let relief = HoleGroup { kind: DemandKind::CornerRelief, target_um: 500, minor_um: None, count: 1 };
    assert_eq!(relief.label("0.50mm", ""), "Corner relief hole ⌀0.50mm");
}

#[test]
fn an_unroutable_slot_names_the_smallest_router() {
    let tools = vec![router("big", 2000), router("small", 800), drill_bit("tiny", 100)];
    assert_eq!(
        unroutable_slot_warning(&tools, "0.40mm"),
        "Slot 0.40mm is narrower than the smallest router in stock (0.8mm), so it cannot be milled. \
         Stock a router no larger than 0.40mm, or set this step's oblong strategy to drill only."
    );
    assert_eq!(
        unroutable_slot_warning(&vec![drill_bit("d", 300)], "0.40mm"),
        "Slot 0.40mm cannot be milled — no router in stock."
    );
}

#[test]
fn in_stock_routers_are_listed_in_stock_order() {
    let mut gone = router("gone", 300);
    gone.status = ToolStatus::OutOfStock;
    let tools = vec![router("a", 1000), drill_bit("d", 800), gone, router("b", 500)];
    assert_eq!(stock_routers(&tools), vec![0, 3]);
}

#[test]
fn the_board_view_asks_the_selected_step_what_it_machines() {
    let mut milling = step_on("Outline", false);
    milling.operations = vec!["mill_board".to_string(), "drill_npth".to_string()];
    let steps = vec![step_on("Top", false), milling];
    assert_eq!(step_targets(&steps, 0), Some(StepTargets { pth: true, npth: false, outline: false }));
    assert_eq!(step_targets(&steps, 1), Some(StepTargets { pth: false, npth: true, outline: true }));
    assert_eq!(step_targets(&steps, 2), None);
}

#[test]
fn a_reserved_slot_without_a_tool_is_a_fixed_empty_row() {
    let tools = vec![drill_bit("d08", 800), router("r1", 1000)];
    let toolset = ToolsetProfile {
        id: "ts".to_string(),
        name: "Test".to_string(),
        generation_policy: ToolsetGenerationPolicy::AllowReload,
        slots: vec![
            (1, RackSlot { tool_id: None, locked: true, disabled: false }),
            (2, RackSlot { tool_id: Some("d08".to_string()), locked: true, disabled: false }),
            (3, RackSlot { tool_id: None, locked: false, disabled: false }),
            (4, RackSlot { tool_id: None, locked: false, disabled: true }),
        ],
    };
    let steps = vec![(0usize, "Top".to_string(), vec!["d08".to_string(), "r1".to_string()])];
    let schedule = build_rack_schedule(&tools, &toolset, &steps);
    let labels: Vec<&str> = schedule.slots.iter().map(|r| r.slot.as_str()).collect();
    assert_eq!(labels, vec!["T1", "T2", "T3"]);
    assert_eq!(schedule.slots[0].cells[0].tool, None);
    assert_eq!(schedule.slots[0].cells[0].status, SlotChange::Fixed);
    assert_eq!(schedule.slots[1].cells[0].status, SlotChange::Fixed);
    assert!(schedule.slots[1].cells[0].tool.is_some());
    assert_eq!(schedule.slots[2].cells[0].status, SlotChange::Load);
}
