use k2g::holes::HoleKind;
use k2g::ui_text::{
    board_display_label, board_label_from, drill_symbol_from_index, format_impact_summary, format_impact_warning,
    hole_marker_class, slug, slug_file_name, sort_uuid_v7_strings, CascadeDeleteImpact, DrillBaseShape,
    DrillModifier, SetupTab,
};
use k2g::ui_text::{cnc_field_groups, cnc_required_field_label};

#[test]
fn a_slug_keeps_lower_case_letters_and_digits_and_one_dash_per_gap() {
    assert_eq!(slug_file_name("My Job #2 (final)", "job"), "my-job-2-final");
    assert_eq!(slug_file_name("  --Board__v3--  ", "job"), "board-v3");
    assert_eq!(slug_file_name("Ünïcödé", "job"), "n-c-d");
    assert_eq!(slug_file_name("***", "job"), "job");
    assert_eq!(slug_file_name("", "fallback"), "fallback");
}

#[test]
fn a_machine_key_drops_everything_but_letters_and_digits() {
    assert_eq!(slug("masso-g3-no-atc"), "massog3noatc");
    assert_eq!(slug("Genmitsu 3018-PRO"), "genmitsu3018pro");
    assert_eq!(slug("---"), "machine");
}

#[test]
fn setup_tabs_have_titles_and_captions() {
    assert_eq!(SetupTab::General.label(), "General Settings");
    assert_eq!(SetupTab::Cnc.label(), "CNC Profiles");
    assert_eq!(SetupTab::Catalogs.label(), "Catalogs");
    assert_eq!(SetupTab::General.caption(), "Runtime and display");
    assert_eq!(SetupTab::Cnc.caption(), "Profile library and import");
    assert_eq!(SetupTab::Catalogs.caption(), "Installed stock catalogs");
}

#[test]
fn hole_markers_are_classed_by_kind() {
    assert_eq!(hole_marker_class(&HoleKind::Via), "board-hole-cross board-hole-via");
    assert_eq!(hole_marker_class(&HoleKind::PadPth), "board-hole-cross board-hole-pth");
    assert_eq!(hole_marker_class(&HoleKind::PadNpth), "board-hole-cross board-hole-npth");
}

#[test]
fn drill_symbols_cycle_outline_then_mark_then_rotation() {
    assert_eq!(drill_symbol_from_index(0), (DrillBaseShape::Circle, DrillModifier::Plain, 0));
    assert_eq!(drill_symbol_from_index(4), (DrillBaseShape::Hexagon, DrillModifier::Plain, 0));
    assert_eq!(drill_symbol_from_index(5), (DrillBaseShape::Circle, DrillModifier::Filled, 0));
    assert_eq!(drill_symbol_from_index(39), (DrillBaseShape::Hexagon, DrillModifier::QuarterFill, 0));
    assert_eq!(drill_symbol_from_index(40), (DrillBaseShape::Circle, DrillModifier::Plain, 45));
    assert_eq!(drill_symbol_from_index(93), (DrillBaseShape::Triangle, DrillModifier::Dot, 90));
    assert_eq!(drill_symbol_from_index(120), (DrillBaseShape::Circle, DrillModifier::Plain, 0));
}

#[test]
fn the_board_label_names_the_file_then_the_path() {
    assert_eq!(board_label_from("/home/me/board.kicad_pcb", Some("board.kicad_pcb".to_string())), "board.kicad_pcb (/home/me/board.kicad_pcb)");
    assert_eq!(board_label_from("x", Some(String::new())), "x");
    assert_eq!(board_label_from("..", None), "..");
    assert_eq!(board_display_label("/home/me/board.kicad_pcb"), "board.kicad_pcb (/home/me/board.kicad_pcb)");
    assert_eq!(board_display_label("boards/amp/./"), "amp (boards/amp/./)");
    assert_eq!(board_display_label("boards/.."), "boards/..");
    assert_eq!(board_display_label("/"), "/");
    assert_eq!(board_display_label(""), "");
}

#[test]
fn a_cascading_delete_lists_everything_it_takes() {
    let impact = CascadeDeleteImpact {
        primary_profiles: vec!["CNC A".to_string()],
        dependent_process_profiles: vec!["Job 1".to_string(), "Job 2".to_string()],
        deleted_live_projects: vec![],
    };
    assert_eq!(format_impact_warning("Delete this?", &impact), "Delete this?\n- CNC A\n- Job 1\n- Job 2");
    assert_eq!(
        format_impact_summary("Deleting", &impact),
        "Deleting: 1 primary, 2 dependent process profile(s), 0 live project(s)"
    );
}

#[test]
fn profile_ids_are_sorted_without_repeats() {
    let mut ids = vec![
        "0190-c".to_string(),
        "0190-a".to_string(),
        "0190-c".to_string(),
        "0190-b".to_string(),
    ];
    sort_uuid_v7_strings(&mut ids);
    assert_eq!(ids, vec!["0190-a".to_string(), "0190-b".to_string(), "0190-c".to_string()]);
}

#[test]
fn required_cnc_fields_have_labels() {
    assert_eq!(cnc_required_field_label("machine.max_feed_rate"), Some("Max feed rate"));
    assert_eq!(cnc_required_field_label("machine.scaling.y"), Some("Y scale"));
    assert_eq!(cnc_required_field_label("primitives.conclude"), Some("Conclude primitive"));
    assert_eq!(cnc_required_field_label("primitives.pause"), None);
}

#[test]
fn the_cnc_editor_groups_fields_by_section() {
    let groups = cnc_field_groups();
    assert_eq!(groups.len(), 9);
    assert_eq!(groups[0].title, "");
    assert_eq!(groups[0].fields, vec!["/name".to_string(), "/machine/atc_slot_count".to_string()]);
    assert_eq!(groups[5].title, "Motion / spindle / drilling");
    assert_eq!(groups[5].fields.len(), 6);
    assert_eq!(groups[8].fields, vec!["/primitives/use_metric".to_string(), "/primitives/use_imperial".to_string()]);
}
