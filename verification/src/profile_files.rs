//! The file names profile documents are imported from and exported to: which names
//! an import accepts, what an export is called by default, and the name an export is
//! saved under when the chosen one lacks the profile's suffix.

use vstd::prelude::*;

use crate::text::{ends_with, lower_text, text_ends_with_ignoring_ascii_case};
use crate::ui_text::{slug_file_name, slug_file_name_spec};

verus! {

/// A kind of profile document.
#[derive(Clone, Copy, Debug, PartialEq, Eq, Structural)]
pub enum ProfileKind {
    Fixture,
    Machining,
    Cnc,
}

/// The suffix stem of a kind's file names.
pub open spec fn kind_stem(kind: ProfileKind) -> Seq<char> {
    match kind {
        ProfileKind::Fixture => "fixture-profile"@,
        ProfileKind::Machining => "machining-profile"@,
        ProfileKind::Cnc => "cnc-profile"@,
    }
}

fn stem_of(kind: ProfileKind) -> (r: &'static str)
    ensures
        r@ == kind_stem(kind),
{
    match kind {
        ProfileKind::Fixture => "fixture-profile",
        ProfileKind::Machining => "machining-profile",
        ProfileKind::Cnc => "cnc-profile",
    }
}

/// Whether a file name ends with `suffix`, ignoring ASCII case.
pub open spec fn has_suffix(name: Seq<char>, suffix: Seq<char>) -> bool {
    ends_with(lower_text(name), lower_text(suffix))
}

/// Whether a file name carries the kind's own suffix, `.yaml` or `.yml`.
pub open spec fn own_name(kind: ProfileKind, name: Seq<char>) -> bool {
    has_suffix(name, "."@ + kind_stem(kind) + ".yaml"@) || has_suffix(name, "."@ + kind_stem(kind) + ".yml"@)
}

/// Whether an import accepts a file name: the kind's own suffix, or for machining
/// profiles also the legacy processing-profile one.
pub open spec fn import_name_ok(kind: ProfileKind, name: Seq<char>) -> bool {
    own_name(kind, name) || (kind == ProfileKind::Machining && (has_suffix(name, ".processing-profile.yaml"@)
        || has_suffix(name, ".processing-profile.yml"@)))
}

fn own_name_exec(kind: ProfileKind, file_name: &str) -> (r: bool)
    ensures
        r == own_name(kind, file_name@),
{
    let stem = stem_of(kind);
    let mut yaml = String::new();
    yaml.append(".");
    yaml.append(stem);
    yaml.append(".yaml");
    let mut yml = String::new();
    yml.append(".");
    yml.append(stem);
    yml.append(".yml");
    text_ends_with_ignoring_ascii_case(file_name, yaml.as_str()) || text_ends_with_ignoring_ascii_case(
        file_name,
        yml.as_str(),
    )
}

/// Whether an import accepts the file name.
pub fn import_name_accepted(kind: ProfileKind, file_name: &str) -> (r: bool)
    ensures
        r == import_name_ok(kind, file_name@),
{
    own_name_exec(kind, file_name) || (kind == ProfileKind::Machining && (text_ends_with_ignoring_ascii_case(
        file_name,
        ".processing-profile.yaml",
    ) || text_ends_with_ignoring_ascii_case(file_name, ".processing-profile.yml")))
}

/// The line shown when an import refuses a file name.
pub open spec fn import_name_error_spec(kind: ProfileKind) -> Seq<char> {
    match kind {
        ProfileKind::Fixture =>
            "Fixture profile import failed: file name must end with .fixture-profile.yaml or .fixture-profile.yml"@,
        ProfileKind::Machining =>
            "Machining profile import failed: file name must end with .machining-profile.yaml/.yml (or legacy .processing-profile.yaml/.yml)"@,
        ProfileKind::Cnc =>
            "CNC profile import failed: file name must end with .cnc-profile.yaml or .cnc-profile.yml"@,
    }
}

/// The line shown when an import refuses a file name.
pub fn import_name_error(kind: ProfileKind) -> (s: String)
    ensures
        s@ == import_name_error_spec(kind),
{
    match kind {
        ProfileKind::Fixture =>
            "Fixture profile import failed: file name must end with .fixture-profile.yaml or .fixture-profile.yml".to_string(),
        ProfileKind::Machining =>
            "Machining profile import failed: file name must end with .machining-profile.yaml/.yml (or legacy .processing-profile.yaml/.yml)".to_string(),
        ProfileKind::Cnc =>
            "CNC profile import failed: file name must end with .cnc-profile.yaml or .cnc-profile.yml".to_string(),
    }
}

/// The name an export dialog proposes for a profile: its name as a slug (the kind's
/// stem when nothing is left of it) with the kind's `.yaml` suffix.
pub fn export_default_name(kind: ProfileKind, profile_name: &str) -> (s: String)
    ensures
        s@ == slug_file_name_spec(profile_name@, kind_stem(kind)) + "."@ + kind_stem(kind) + ".yaml"@,
{
    let stem = stem_of(kind);
    let mut s = slug_file_name(profile_name, stem);
    s.append(".");
    s.append(stem);
    s.append(".yaml");
    s
}

/// The file name an export is saved under instead of the chosen `file_name`, `None`
/// when the chosen one already carries the kind's suffix: the chosen name's stem
/// (the kind's stem when it has none) with the kind's `.yaml` suffix.
pub fn export_file_name(kind: ProfileKind, file_name: &str, chosen_stem: Option<&str>) -> (r: Option<String>)
    ensures
        own_name(kind, file_name@) ==> r is None,
        !own_name(kind, file_name@) ==> (r matches Some(s) && s@ == match chosen_stem {
            Some(t) => t@,
            None => kind_stem(kind),
        } + "."@ + kind_stem(kind) + ".yaml"@),
{
    if own_name_exec(kind, file_name) {
        return None;
    }
    let stem = stem_of(kind);
    let mut s = String::new();
    match chosen_stem {
        Some(t) => s.append(t),
        None => s.append(stem),
    }
    s.append(".");
    s.append(stem);
    s.append(".yaml");
    Some(s)
}

} // verus!
