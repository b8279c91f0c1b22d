use k2g::profile_files::{export_default_name, export_file_name, import_name_accepted, import_name_error, ProfileKind};

#[test]
fn an_import_accepts_the_kinds_suffix_in_any_ascii_case() {
    assert!(import_name_accepted(ProfileKind::Fixture, "vice.fixture-profile.yaml"));
    assert!(import_name_accepted(ProfileKind::Fixture, "VICE.Fixture-Profile.YML"));
    assert!(!import_name_accepted(ProfileKind::Fixture, "vice.yaml"));
    assert!(!import_name_accepted(ProfileKind::Fixture, "vice.cnc-profile.yaml"));
    assert!(import_name_accepted(ProfileKind::Cnc, "3018.cnc-profile.yml"));
    assert!(!import_name_accepted(ProfileKind::Cnc, "3018.processing-profile.yml"));
}

#[test]
fn a_machining_import_also_accepts_the_legacy_suffix() {
    assert!(import_name_accepted(ProfileKind::Machining, "two-sided.machining-profile.yaml"));
    assert!(import_name_accepted(ProfileKind::Machining, "two-sided.processing-profile.yml"));
    assert!(!import_name_accepted(ProfileKind::Machining, "two-sided.fixture-profile.yml"));
}

#[test]
fn a_refused_import_says_which_names_are_accepted() {
    assert_eq!(
        import_name_error(ProfileKind::Fixture),
        "Fixture profile import failed: file name must end with .fixture-profile.yaml or .fixture-profile.yml"
    );
    assert_eq!(
        import_name_error(ProfileKind::Machining),
        "Machining profile import failed: file name must end with .machining-profile.yaml/.yml (or legacy .processing-profile.yaml/.yml)"
    );
    assert_eq!(
        import_name_error(ProfileKind::Cnc),
        "CNC profile import failed: file name must end with .cnc-profile.yaml or .cnc-profile.yml"
    );
}

#[test]
fn an_export_is_proposed_under_the_profiles_slug() {
    assert_eq!(export_default_name(ProfileKind::Fixture, "Vice & Pins"), "vice-pins.fixture-profile.yaml");
    assert_eq!(export_default_name(ProfileKind::Machining, "???"), "machining-profile.machining-profile.yaml");
}

#[test]
fn an_export_without_the_suffix_is_renamed() {
    assert_eq!(export_file_name(ProfileKind::Fixture, "vice.FIXTURE-PROFILE.yml", Some("vice.FIXTURE-PROFILE")), None);
    assert_eq!(
        export_file_name(ProfileKind::Fixture, "vice.yaml", Some("vice")),
        Some("vice.fixture-profile.yaml".to_string())
    );
    assert_eq!(
        export_file_name(ProfileKind::Machining, "", None),
        Some("machining-profile.machining-profile.yaml".to_string())
    );
    assert_eq!(
        export_file_name(ProfileKind::Machining, "a.processing-profile.yaml", Some("a.processing-profile")),
        Some("a.processing-profile.machining-profile.yaml".to_string())
    );
}
