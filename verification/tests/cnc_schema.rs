use k2g::cnc_schema::{
    collect_required_paths, lookup, machine_profile_from, read_machine_profile, read_machine_profile_text,
    read_machine_template, read_machine_template_text, required_paths_text, YamlNode,
};

fn text(s: &str) -> YamlNode {
    YamlNode::Text(s.to_string())
}

fn map(entries: Vec<(&str, YamlNode)>) -> YamlNode {
    YamlNode::Mapping(entries.into_iter().map(|(k, v)| (text(k), v)).collect())
}

fn list(items: &[&str]) -> YamlNode {
    YamlNode::Sequence(items.iter().map(|s| text(s)).collect())
}

fn strings(v: &[&str]) -> Vec<String> {
    v.iter().map(|s| s.to_string()).collect()
}

fn cnc_schema() -> YamlNode {
    map(vec![
        ("required", list(&["name", "machine", "primitives"])),
        (
            "properties",
            map(vec![
                ("name", map(vec![("type", text("string"))])),
                (
                    "machine",
                    map(vec![
                        ("required", list(&["max_feed_rate", "atc_slot_count", "scaling"])),
                        (
                            "properties",
                            map(vec![("scaling", map(vec![("required", list(&["x", "y"]))]))]),
                        ),
                    ]),
                ),
                ("primitives", map(vec![("required", list(&["initialise", "drill"]))])),
            ]),
        ),
    ])
}

#[test]
fn required_paths_follow_the_properties_down() {
    let mut out = Vec::new();
    collect_required_paths(&cnc_schema(), None, &mut out);
    assert_eq!(
        out,
        strings(&[
            "machine",
            "machine.atc_slot_count",
            "machine.max_feed_rate",
            "machine.scaling",
            "machine.scaling.x",
            "machine.scaling.y",
            "name",
            "primitives",
            "primitives.drill",
            "primitives.initialise",
        ])
    );
}

#[test]
fn a_prefix_is_prepended_and_an_empty_one_ignored() {
    let node = map(vec![("required", list(&["a", "b"]))]);
    let mut out = Vec::new();
    collect_required_paths(&node, Some("root"), &mut out);
    assert_eq!(out, strings(&["root.a", "root.b"]));

    let mut out = Vec::new();
    collect_required_paths(&node, Some(""), &mut out);
    assert_eq!(out, strings(&["a", "b"]));
}

#[test]
fn a_schema_without_a_required_list_requires_nothing() {
    let mut out = strings(&["kept"]);
    collect_required_paths(&map(vec![("required", text("name"))]), None, &mut out);
    collect_required_paths(&YamlNode::Null, None, &mut out);
    assert_eq!(out, strings(&["kept"]));
}

#[test]
fn entries_that_are_not_text_are_skipped_and_tags_are_seen_through() {
    let node = YamlNode::Tagged(Box::new(map(vec![(
        "required",
        YamlNode::Sequence(vec![YamlNode::Number(Some(3)), text("x"), YamlNode::Tagged(Box::new(text("y")))]),
    )])));
    let mut out = Vec::new();
    collect_required_paths(&node, None, &mut out);
    assert_eq!(out, strings(&["x", "y"]));
}

#[test]
fn a_tagged_key_is_not_the_plain_key() {
    let node = YamlNode::Mapping(vec![(YamlNode::Tagged(Box::new(text("name"))), text("A"))]);
    assert!(lookup(&node, "name").is_none());
    let node = map(vec![("name", text("A"))]);
    assert!(matches!(lookup(&node, "name"), Some(YamlNode::Text(s)) if s == "A"));
}

fn required_of_schema() -> Vec<String> {
    let mut out = Vec::new();
    collect_required_paths(&cnc_schema(), None, &mut out);
    out
}

#[test]
fn a_complete_template_is_usable() {
    let root = map(vec![
        ("name", text("  Genmitsu 3018  ")),
        (
            "machine",
            map(vec![
                ("max_feed_rate", text("1000 mm/min")),
                ("spindle_rpm_min", text("0 rpm")),
                ("atc_slot_count", YamlNode::Number(Some(0))),
                ("scaling", map(vec![("x", YamlNode::Number(None)), ("y", YamlNode::Number(Some(1)))])),
                ("line_numbering_increment", YamlNode::Number(Some(10))),
            ]),
        ),
        ("primitives", map(vec![("initialise", text("G21\nG90\n\n")), ("drill", text("G81"))])),
    ]);
    let t = read_machine_template(&root, "Genmitsu-3018", "Fallback", &required_of_schema());
    assert_eq!(t.key, "Genmitsu-3018");
    assert_eq!(t.id, "template-genmitsu3018");
    assert_eq!(t.name, "Genmitsu 3018");
    assert_eq!(t.max_feed_rate.as_deref(), Some("1000 mm/min"));
    assert_eq!(t.spindle_rpm_min.as_deref(), Some("0 rpm"));
    assert_eq!(t.spindle_rpm_max, None);
    assert_eq!(t.atc_slot_count, Some(0));
    assert_eq!(t.line_numbering_increment, Some(10));
    assert_eq!(t.primitives.gcode_header.as_deref(), Some("G21\nG90"));
    assert_eq!(t.primitives.drill_next_hole.as_deref(), Some("G81"));
    assert_eq!(t.primitives.gcode_footer, None);
    assert!(t.pending_required_fields.is_empty());
    assert!(t.usable);
}

#[test]
fn a_template_missing_required_fields_is_not_usable() {
    let root = map(vec![
        ("name", text("   ")),
        (
            "machine",
            map(vec![("max_feed_rate", YamlNode::Number(Some(1000))), ("atc_slot_count", YamlNode::Number(Some(300)))]),
        ),
        ("primitives", map(vec![("initialise", YamlNode::Null)])),
    ]);
    let t = read_machine_template(&root, "!!!", "Masso G3", &required_of_schema());
    assert_eq!(t.id, "template-machine");
    assert_eq!(t.name, "Masso G3");
    assert_eq!(t.max_feed_rate, None);
    assert_eq!(t.atc_slot_count, Some(255));
    assert_eq!(t.primitives.gcode_header, None);
    assert_eq!(
        t.pending_required_fields,
        strings(&["machine.max_feed_rate", "machine.scaling.x", "machine.scaling.y", "primitives.drill"])
    );
    assert!(!t.usable);
}

#[test]
fn integers_are_clamped_or_wrapped_as_the_profile_stores_them() {
    let root = map(vec![(
        "machine",
        map(vec![
            ("atc_slot_count", YamlNode::Number(Some(-4))),
            ("line_numbering_increment", YamlNode::Number(Some(70_000))),
        ]),
    )]);
    let t = read_machine_template(&root, "k", "F", &Vec::new());
    assert_eq!(t.atc_slot_count, Some(0));
    assert_eq!(t.line_numbering_increment, Some(4464));
    assert!(t.usable);

    let root = map(vec![("machine", map(vec![("line_numbering_increment", YamlNode::Number(Some(-5)))]))]);
    let t = read_machine_template(&root, "k", "F", &Vec::new());
    assert_eq!(t.line_numbering_increment, Some(0));
}

#[test]
fn an_unparsed_template_leaves_every_required_field_pending() {
    let required = strings(&["machine.atc_slot_count", "primitives.conclude", "name"]);
    let t = read_machine_template(&YamlNode::Null, "x", "X", &required);
    assert_eq!(t.name, "X");
    assert_eq!(t.pending_required_fields, strings(&["machine.atc_slot_count", "primitives.conclude"]));
    assert!(!t.usable);
}

fn machine_document(extra: Vec<(&str, YamlNode)>) -> YamlNode {
    let mut machine = vec![
        ("spindle_rpm_min", text("8000 rpm")),
        ("spindle_rpm_max", text("24000 rpm")),
        ("atc_slot_count", YamlNode::Number(Some(6))),
    ];
    machine.extend(extra);
    map(vec![("machine", map(machine)), ("primitives", map(vec![("change_tool", text("M6 T{tool}\n"))]))])
}

#[test]
fn an_imported_profile_is_named_after_its_file_unless_it_names_itself() {
    let m = machine_profile_from(&machine_document(Vec::new()), "My Mill").expect("importable");
    assert_eq!(m.id, "import-mymill");
    assert_eq!(m.name, "Imported My Mill");
    assert_eq!(m.max_feed_rate, None);
    assert_eq!(m.spindle_rpm_min, "8000 rpm");
    assert_eq!(m.spindle_rpm_max, "24000 rpm");
    assert_eq!(m.atc_slot_count, 6);
    assert_eq!(m.line_numbering_increment, 10);
    assert_eq!(m.primitives.tool_change_command.as_deref(), Some("M6 T{tool}"));
    assert_eq!(m.primitives.gcode_header, None);

    let named = map(vec![
        ("name", text(" Shop router ")),
        ("machine", map(vec![
            ("spindle_rpm_min", text("0")),
            ("spindle_rpm_max", text("1")),
            ("atc_slot_count", YamlNode::Number(Some(0))),
        ])),
    ]);
    let m = machine_profile_from(&named, "").expect("importable");
    assert_eq!(m.name, " Shop router ");
    assert_eq!(m.id, "import-machine");
}

#[test]
fn an_import_without_spindle_speeds_or_slot_count_is_refused() {
    assert!(machine_profile_from(&YamlNode::Null, "m").is_none());
    assert!(machine_profile_from(&map(vec![("name", text("x"))]), "m").is_none());
    let no_max = map(vec![(
        "machine",
        map(vec![("spindle_rpm_min", text("0")), ("atc_slot_count", YamlNode::Number(Some(0)))]),
    )]);
    assert!(machine_profile_from(&no_max, "m").is_none());
    let float_slots = map(vec![(
        "machine",
        map(vec![
            ("spindle_rpm_min", text("0")),
            ("spindle_rpm_max", text("1")),
            ("atc_slot_count", YamlNode::Number(None)),
        ]),
    )]);
    assert!(machine_profile_from(&float_slots, "m").is_none());
}

#[test]
fn an_imported_increment_falls_back_to_the_nested_key_then_ten() {
    let nested = machine_document(vec![(
        "line_numbering",
        map(vec![("increment", YamlNode::Number(Some(5)))]),
    )]);
    assert_eq!(machine_profile_from(&nested, "m").unwrap().line_numbering_increment, 5);
    let both = machine_document(vec![
        ("line_numbering_increment", YamlNode::Number(Some(2))),
        ("line_numbering", map(vec![("increment", YamlNode::Number(Some(5)))])),
    ]);
    assert_eq!(machine_profile_from(&both, "m").unwrap().line_numbering_increment, 2);
    let negative = machine_document(vec![("line_numbering_increment", YamlNode::Number(Some(-7)))]);
    assert_eq!(machine_profile_from(&negative, "m").unwrap().line_numbering_increment, 0);
}

#[test]
fn an_imported_slot_count_keeps_its_low_byte() {
    let doc = map(vec![(
        "machine",
        map(vec![
            ("spindle_rpm_min", text("0")),
            ("spindle_rpm_max", text("1")),
            ("atc_slot_count", YamlNode::Number(Some(260))),
        ]),
    )]);
    assert_eq!(machine_profile_from(&doc, "m").unwrap().atc_slot_count, 4);
}

#[test]
fn an_imported_profile_takes_its_stem_from_the_source_path() {
    let m = read_machine_profile(&machine_document(Vec::new()), "/profiles/Masso G3.yaml").expect("importable");
    assert_eq!(m.id, "import-massog3");
    assert_eq!(m.name, "Imported Masso G3");
}

#[test]
fn an_imported_profile_stem_drops_only_the_last_extension() {
    let m = read_machine_profile(&machine_document(Vec::new()), "shop/b.tar.gz").expect("importable");
    assert_eq!(m.id, "import-btar");
    assert_eq!(m.name, "Imported b.tar");
    let m = read_machine_profile(&machine_document(Vec::new()), "shop/..").expect("importable");
    assert_eq!(m.id, "import-machine");
    assert_eq!(m.name, "Imported machine");
}

const SCHEMA_TEXT: &str = "required: [name, machine]\nproperties:\n  machine:\n    required: [atc_slot_count]\n";

#[test]
fn required_paths_are_read_from_schema_text() {
    assert_eq!(required_paths_text(SCHEMA_TEXT), strings(&["machine", "machine.atc_slot_count", "name"]));
    assert!(required_paths_text("required: [unclosed").is_empty());
}

#[test]
fn a_template_is_read_from_its_text() {
    let text = "name: Mill\nmachine:\n  atc_slot_count: 6\n  max_feed_rate: 1000 mm/min\nprimitives:\n  initialise: |\n    G21\n";
    let required = required_paths_text(SCHEMA_TEXT);
    let t = read_machine_template_text(text, "mill", "Fallback", &required);
    assert_eq!(t.name, "Mill");
    assert_eq!(t.atc_slot_count, Some(6));
    assert_eq!(t.max_feed_rate.as_deref(), Some("1000 mm/min"));
    assert_eq!(t.primitives.gcode_header.as_deref(), Some("G21"));
    assert!(t.usable);
    let broken = read_machine_template_text("name: [unclosed", "mill", "Fallback", &required);
    assert_eq!(broken.name, "Fallback");
    assert_eq!(broken.pending_required_fields, strings(&["machine.atc_slot_count"]));
}

#[test]
fn an_imported_profile_is_read_from_its_text() {
    let text = "machine:\n  spindle_rpm_min: 8000 rpm\n  spindle_rpm_max: 24000 rpm\n  atc_slot_count: 0\n";
    let m = read_machine_profile_text(text, "/x/Desk Mill.cnc-profile.yaml").expect("importable");
    assert_eq!(m.id, "import-deskmillcncprofile");
    assert_eq!(m.spindle_rpm_max, "24000 rpm");
    assert!(read_machine_profile_text("machine: [", "/x/a.yaml").is_none());
    assert!(read_machine_profile_text("name: only", "/x/a.yaml").is_none());
}
