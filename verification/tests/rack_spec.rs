use k2g::holes::{kind_key, BoardHole, DemandKind, HoleGroup, HoleKind};
use k2g::model::{RackSlot, ToolsetGenerationPolicy, ToolsetProfile};
use k2g::rack_spec::{build_rack_spec, machine_summary, map_policy, OverflowPolicy};
use k2g::steps::{
    step_reference, DrillConfigRaw, EdgeConfigRaw, OblongStrategy, RetentionRaw, StepRaw, StepTargets,
};
use k2g::text::{decimal_string, insert_sorted, text_less, trim};

fn slot(tool: Option<&str>, locked: bool, disabled: bool) -> RackSlot {
    RackSlot { tool_id: tool.map(|s| s.to_string()), locked, disabled }
}

#[test]
fn the_rack_spec_counts_distinct_pinned_tools_and_free_slots() {
    let toolset = ToolsetProfile {
        id: "t".to_string(),
        name: "T".to_string(),
        generation_policy: ToolsetGenerationPolicy::AllowHybrid,
        slots: vec![
            (1, slot(Some("drill08"), true, false)),
            (2, slot(Some("drill08"), true, false)),
            (3, slot(None, false, false)),
            (4, slot(None, false, true)),
            (5, slot(Some("router"), false, false)),
        ],
    };
    let spec = build_rack_spec(&toolset, 0, &vec!["router".to_string()]);
    assert_eq!(spec.capacity, 3, "one distinct pinned tool and two free slots");
    assert_eq!(spec.fixed, vec![(1, "drill08".to_string()), (2, "drill08".to_string())]);
    assert_eq!(spec.spare_slots, vec![3, 5]);
    assert_eq!(spec.mandatory, vec!["router".to_string()]);
    assert_eq!(spec.policy, OverflowPolicy::AllowHybrid);

    let capped = build_rack_spec(&toolset, 2, &vec![]);
    assert_eq!(capped.capacity, 2, "a two-slot tool changer holds two tools");
}

#[test]
fn each_generation_policy_maps_to_its_overflow_policy() {
    assert_eq!(map_policy(ToolsetGenerationPolicy::FixedToolset), OverflowPolicy::FixedToolset);
    assert_eq!(map_policy(ToolsetGenerationPolicy::AllowReload), OverflowPolicy::AllowReload);
    assert_eq!(map_policy(ToolsetGenerationPolicy::AllowHybrid), OverflowPolicy::AllowHybrid);
}

#[test]
fn the_machine_summary_says_how_tools_change() {
    assert_eq!(machine_summary(9, 0), "9 tool(s) · manual tool changes (no ATC)");
    assert_eq!(machine_summary(3, 12), "3 tool(s) · 12-slot ATC");
}

#[test]
fn a_hole_group_has_a_stable_identity() {
    assert_eq!(kind_key(DemandKind::Pth), "pth");
    assert_eq!(kind_key(DemandKind::Npth), "npth");
    assert_eq!(kind_key(DemandKind::Locating), "loc");
    assert_eq!(kind_key(DemandKind::CornerRelief), "corner");
    let round = HoleGroup { kind: DemandKind::Pth, target_um: 800, minor_um: None, count: 3 };
    assert_eq!(round.id(), "pth-800--1");
    let slot = HoleGroup { kind: DemandKind::Npth, target_um: 4000, minor_um: Some(2000), count: 1 };
    assert_eq!(slot.id(), "npth-4000-2000");
}

#[test]
fn a_hole_group_comes_from_one_hole_of_an_enabled_kind() {
    let via = BoardHole { kind: HoleKind::Via, drill_x_um: Some(300), drill_y_um: None };
    let g = HoleGroup::from_hole(&via, true, false).unwrap();
    assert_eq!((g.kind, g.target_um, g.minor_um, g.count), (DemandKind::Pth, 300, None, 1));
    assert!(HoleGroup::from_hole(&via, false, true).is_none());
    let undrilled = BoardHole { kind: HoleKind::PadPth, drill_x_um: None, drill_y_um: None };
    assert!(HoleGroup::from_hole(&undrilled, true, true).is_none());
}

#[test]
fn oblong_strategies_come_from_schema_keys() {
    assert_eq!(OblongStrategy::from_key("route"), OblongStrategy::Route);
    assert_eq!(OblongStrategy::from_key("drill_chain"), OblongStrategy::DrillChain);
    assert_eq!(OblongStrategy::from_key("drill_chain_then_route"), OblongStrategy::DrillChainThenRoute);
    assert_eq!(OblongStrategy::from_key("drill_ends_then_route"), OblongStrategy::DrillEndsThenRoute);
    assert_eq!(OblongStrategy::from_key("nonsense"), OblongStrategy::DrillEndsThenRoute);

    assert!(!OblongStrategy::Route.drills() && OblongStrategy::Route.routes());
    assert!(OblongStrategy::DrillChain.drills() && !OblongStrategy::DrillChain.routes());
    assert!(OblongStrategy::DrillChainThenRoute.routes() && !OblongStrategy::DrillChainThenRoute.routes_from_solid());
    assert!(OblongStrategy::DrillEndsThenRoute.routes_from_solid());
}

#[test]
fn schema_defaults_are_filled_in() {
    let drill = DrillConfigRaw::default();
    assert!(!drill.route_fallback && drill.drill_first && !drill.pilot);
    assert_eq!(drill.oblong, "drill_ends_then_route");
    assert_eq!((drill.oversize.relative_ppm, drill.oversize.max_um), (80_000, 100));
    assert_eq!((drill.undersize.relative_ppm, drill.undersize.max_um), (60_000, 80));

    let edge = EdgeConfigRaw::default();
    assert_eq!(edge.cut, "route");
    assert!(edge.cuts_through());
    assert_eq!(edge.retention(false).count, 4);
    assert_eq!(edge.retention(true).count, 2);
    assert_eq!(edge.finishing_um, 100);
    let scored = EdgeConfigRaw { cut: "score".to_string(), ..EdgeConfigRaw::default() };
    assert!(!scored.cuts_through());
    let r = RetentionRaw::defaults(6);
    assert!(r.tabs && r.count == 6 && r.width_um == 2000 && !r.mouse_bites);
}

#[test]
fn a_step_targets_what_its_operations_enable() {
    let step = StepRaw {
        name: "S".to_string(),
        operations: vec!["drill_npth".to_string(), "mill_board".to_string()],
        cnc_id: None,
        fixture_id: None,
        toolset_id: None,
        drill: DrillConfigRaw::default(),
        route_board: EdgeConfigRaw::default(),
        machines_back: false,
        pin_diameter_um: None,
    };
    let targets = StepTargets::of_step(&step);
    assert_eq!(targets, StepTargets { pth: false, npth: true, outline: true });
    assert!(!step.drills_pth() && step.drills_npth() && step.routes_outline() && !step.drills_locating_pins());
    let pth = BoardHole { kind: HoleKind::PadPth, drill_x_um: Some(800), drill_y_um: Some(800) };
    let npth = BoardHole { kind: HoleKind::PadNpth, drill_x_um: Some(3000), drill_y_um: Some(3000) };
    assert!(!targets.machines(&pth));
    assert!(targets.machines(&npth));
    assert_eq!(step.oblong_strategy(), OblongStrategy::DrillEndsThenRoute);
    assert_eq!(step_reference(2, &"Cut out".to_string()), "step 3 'Cut out'");
}

#[test]
fn text_helpers_behave_like_their_std_counterparts() {
    assert_eq!(decimal_string(0), "0");
    assert_eq!(decimal_string(1_234_567), "1234567");
    assert_eq!(trim("  a b \t"), "a b");
    assert_eq!(trim("   "), "");
    assert!(text_less("abc", "abd") && text_less("ab", "abc") && !text_less("b", "abc"));
    let mut v = vec!["b".to_string(), "d".to_string()];
    insert_sorted(&mut v, "c".to_string());
    insert_sorted(&mut v, "a".to_string());
    insert_sorted(&mut v, "c".to_string());
    assert_eq!(v, vec!["a".to_string(), "b".to_string(), "c".to_string(), "d".to_string()]);
}
