//! The text the screens derive from data: file-name slugs, the setup tabs' labels,
//! the messages of a cascading delete, the board's display label, the class of a
//! hole marker and the symbol each drill size gets in the legend.

use vstd::prelude::*;

use crate::holes::HoleKind;
use crate::text::{
    ascii_lower, decimal, file_name_spec, insert_sorted, portable_path, push_char, push_decimal, strictly_sorted,
    text_equal, texts,
};

verus! {

// ---------------------------------------------------------------------------
// Slugs
// ---------------------------------------------------------------------------

/// An ASCII letter or digit.
pub open spec fn is_ascii_alnum(c: char) -> bool {
    ('0' <= c && c <= '9') || ('a' <= c && c <= 'z') || ('A' <= c && c <= 'Z')
}

fn ascii_alnum(c: char) -> (r: bool)
    ensures
        r == is_ascii_alnum(c),
{
    ('0' <= c && c <= '9') || ('a' <= c && c <= 'z') || ('A' <= c && c <= 'Z')
}

fn lower_char(c: char) -> (r: char)
    ensures
        r == ascii_lower(c),
{
    if 'A' <= c && c <= 'Z' {
        let code = (c as u32) + 32;
        char_of(code)
    } else {
        c
    }
}

fn char_of(code: u32) -> (r: char)
    requires
        code < 128,
    ensures
        r as u32 == code,
{
    (code as u8) as char
}

/// Each run of characters that are not ASCII letters or digits becomes one `-`;
/// letters are put in lower case. Returns the text and whether it ends in such a run.
pub open spec fn slug_raw(s: Seq<char>) -> (Seq<char>, bool)
    decreases s.len(),
{
    if s.len() == 0 {
        (seq![], false)
    } else {
        let (out, dash) = slug_raw(s.drop_last());
        let c = s.last();
        if is_ascii_alnum(c) {
            (out.push(ascii_lower(c)), false)
        } else if !dash {
            (out.push('-'), true)
        } else {
            (out, true)
        }
    }
}

/// The index of the first character from `from` on that is not `-`.
pub open spec fn first_non_dash(s: Seq<char>, from: int) -> int
    decreases s.len() - from,
{
    if from < 0 || from >= s.len() {
        s.len() as int
    } else if s[from] != '-' {
        from
    } else {
        first_non_dash(s, from + 1)
    }
}

/// The end of the last character before `to` that is not `-`.
pub open spec fn last_non_dash_end(s: Seq<char>, to: int) -> int
    decreases to,
{
    if to <= 0 || to > s.len() {
        0
    } else if s[to - 1] != '-' {
        to
    } else {
        last_non_dash_end(s, to - 1)
    }
}

/// `s` without leading and trailing `-`.
pub open spec fn trim_dashes(s: Seq<char>) -> Seq<char> {
    let a = first_non_dash(s, 0);
    let b = last_non_dash_end(s, s.len() as int);
    if a >= b { seq![] } else { s.subrange(a, b) }
}

/// A name as a file-name slug, or `fallback` when nothing is left of it.
pub open spec fn slug_file_name_spec(value: Seq<char>, fallback: Seq<char>) -> Seq<char> {
    let t = trim_dashes(slug_raw(value).0);
    if t.len() == 0 { fallback } else { t }
}

proof fn lemma_first_non_dash(s: Seq<char>, from: int)
    requires
        0 <= from <= s.len(),
    ensures
        from <= first_non_dash(s, from) <= s.len(),
        first_non_dash(s, from) < s.len() ==> s[first_non_dash(s, from)] != '-',
    decreases s.len() - from,
{
    if from < s.len() {
        lemma_first_non_dash(s, from + 1);
    }
}

proof fn lemma_last_non_dash_end(s: Seq<char>, to: int)
    requires
        0 <= to <= s.len(),
    ensures
        0 <= last_non_dash_end(s, to) <= to,
    decreases to,
{
    if to > 0 {
        lemma_last_non_dash_end(s, to - 1);
    }
}

fn trimmed_string(raw: &Vec<char>) -> (r: String)
    ensures
        r@ == trim_dashes(raw@),
{
    let n = raw.len();
    let mut start: usize = 0;
    while start < n && raw[start] == '-'
        invariant
            n == raw@.len(),
            start <= n,
            first_non_dash(raw@, 0) == first_non_dash(raw@, start as int),
        decreases n - start,
    {
        start += 1;
    }
    let mut end: usize = n;
    while end > 0 && raw[end - 1] == '-'
        invariant
            n == raw@.len(),
            end <= n,
            last_non_dash_end(raw@, n as int) == last_non_dash_end(raw@, end as int),
        decreases end,
    {
        end -= 1;
    }
    let mut r = String::new();
    if start < end {
        let mut k: usize = start;
        while k < end
            invariant
                start <= k <= end,
                end <= n,
                n == raw@.len(),
                r@ == raw@.subrange(start as int, k as int),
            decreases end - k,
        {
            push_char(&mut r, raw[k]);
            k += 1;
            assert(r@ =~= raw@.subrange(start as int, k as int));
        }
    } else {
        assert(r@ =~= Seq::<char>::empty());
    }
    r
}

/// A name reduced to lower-case ASCII letters and digits, each other run of
/// characters turned into one `-`, with no `-` at either end; `fallback` when
/// nothing is left.
pub fn slug_file_name(value: &str, fallback: &str) -> (r: String)
    ensures
        r@ == slug_file_name_spec(value@, fallback@),
{
    let n = value.unicode_len();
    let mut raw: Vec<char> = Vec::new();
    let mut last_dash = false;
    let mut i: usize = 0;
    while i < n
        invariant
            n == value@.len(),
            i <= n,
            (raw@, last_dash) == slug_raw(value@.take(i as int)),
        decreases n - i,
    {
        let c = value.get_char(i);
        assert(value@.take(i + 1).drop_last() =~= value@.take(i as int));
        if ascii_alnum(c) {
            raw.push(lower_char(c));
            last_dash = false;
        } else if !last_dash {
            raw.push('-');
            last_dash = true;
        }
        i += 1;
    }
    assert(value@.take(n as int) =~= value@);
    let t = trimmed_string(&raw);
    if t.unicode_len() == 0 {
        fallback.to_string()
    } else {
        t
    }
}

/// The lower-case ASCII letters and digits of a name, in order.
pub open spec fn alnum_lower(s: Seq<char>) -> Seq<char>
    decreases s.len(),
{
    if s.len() == 0 {
        seq![]
    } else if is_ascii_alnum(s.last()) {
        alnum_lower(s.drop_last()).push(ascii_lower(s.last()))
    } else {
        alnum_lower(s.drop_last())
    }
}

/// A machine key from a name: its ASCII letters and digits in lower case, or
/// `machine` when it has none.
pub fn slug(input: &str) -> (r: String)
    ensures
        r@ == (if alnum_lower(input@).len() == 0 { "machine"@ } else { alnum_lower(input@) }),
{
    let n = input.unicode_len();
    let mut out = String::new();
    let mut i: usize = 0;
    while i < n
        invariant
            n == input@.len(),
            i <= n,
            out@ == alnum_lower(input@.take(i as int)),
        decreases n - i,
    {
        let c = input.get_char(i);
        assert(input@.take(i + 1).drop_last() =~= input@.take(i as int));
        if ascii_alnum(c) {
            push_char(&mut out, lower_char(c));
        }
        i += 1;
    }
    assert(input@.take(n as int) =~= input@);
    if out.unicode_len() == 0 {
        "machine".to_string()
    } else {
        out
    }
}

// ---------------------------------------------------------------------------
// Setup tabs
// ---------------------------------------------------------------------------

/// The sections of the setup screen.
#[derive(Clone, Copy, Debug, PartialEq, Eq, Structural)]
pub enum SetupTab {
    General,
    Cnc,
    Catalogs,
}

impl SetupTab {
    /// The tab's title.
    pub fn label(self) -> (r: &'static str)
        ensures
            r@ == match self {
                SetupTab::General => "General Settings"@,
                SetupTab::Cnc => "CNC Profiles"@,
                SetupTab::Catalogs => "Catalogs"@,
            },
    {
        match self {
            SetupTab::General => "General Settings",
            SetupTab::Cnc => "CNC Profiles",
            SetupTab::Catalogs => "Catalogs",
        }
    }

    /// The line under the tab's title.
    pub fn caption(self) -> (r: &'static str)
        ensures
            r@ == match self {
                SetupTab::General => "Runtime and display"@,
                SetupTab::Cnc => "Profile library and import"@,
                SetupTab::Catalogs => "Installed stock catalogs"@,
            },
    {
        match self {
            SetupTab::General => "Runtime and display",
            SetupTab::Cnc => "Profile library and import",
            SetupTab::Catalogs => "Installed stock catalogs",
        }
    }
}

// ---------------------------------------------------------------------------
// Board view
// ---------------------------------------------------------------------------

/// The style class of a hole's marker on the board view.
pub fn hole_marker_class(kind: &HoleKind) -> (r: &'static str)
    ensures
        r@ == match *kind {
            HoleKind::Via => "board-hole-cross board-hole-via"@,
            HoleKind::PadPth => "board-hole-cross board-hole-pth"@,
            HoleKind::PadNpth => "board-hole-cross board-hole-npth"@,
        },
{
    match kind {
        HoleKind::Via => "board-hole-cross board-hole-via",
        HoleKind::PadPth => "board-hole-cross board-hole-pth",
        HoleKind::PadNpth => "board-hole-cross board-hole-npth",
    }
}

/// The outline of a drill-legend symbol.
#[derive(Clone, Copy, Debug, PartialEq, Eq, Structural)]
pub enum DrillBaseShape {
    Circle,
    Square,
    Diamond,
    Triangle,
    Hexagon,
}

/// What is drawn inside a drill-legend symbol.
#[derive(Clone, Copy, Debug, PartialEq, Eq, Structural)]
pub enum DrillModifier {
    Plain,
    Filled,
    Dot,
    Plus,
    X,
    Bullseye,
    HalfFill,
    QuarterFill,
}

/// The `k`th outline, in legend order.
pub open spec fn base_shape(k: int) -> DrillBaseShape {
    if k == 0 {
        DrillBaseShape::Circle
    } else if k == 1 {
        DrillBaseShape::Square
    } else if k == 2 {
        DrillBaseShape::Diamond
    } else if k == 3 {
        DrillBaseShape::Triangle
    } else {
        DrillBaseShape::Hexagon
    }
}

/// The `k`th inner mark, in legend order.
pub open spec fn modifier(k: int) -> DrillModifier {
    if k == 0 {
        DrillModifier::Plain
    } else if k == 1 {
        DrillModifier::Filled
    } else if k == 2 {
        DrillModifier::Dot
    } else if k == 3 {
        DrillModifier::Plus
    } else if k == 4 {
        DrillModifier::X
    } else if k == 5 {
        DrillModifier::Bullseye
    } else if k == 6 {
        DrillModifier::HalfFill
    } else {
        DrillModifier::QuarterFill
    }
}

/// The legend symbol of the `index`th drill size: the outline cycles fastest, then
/// the inner mark, then the rotation (0°, 45°, 90°), so the first 120 sizes each get
/// a symbol of their own.
pub fn drill_symbol_from_index(index: usize) -> (r: (DrillBaseShape, DrillModifier, u32))
    ensures
        r == (base_shape(index as int % 5), modifier((index as int / 5) % 8), (((index as int / 40) % 3)
            * 45) as u32),
{
    let b = index % 5;
    let m = (index / 5) % 8;
    let t = (index / 40) % 3;
    let base = if b == 0 {
        DrillBaseShape::Circle
    } else if b == 1 {
        DrillBaseShape::Square
    } else if b == 2 {
        DrillBaseShape::Diamond
    } else if b == 3 {
        DrillBaseShape::Triangle
    } else {
        DrillBaseShape::Hexagon
    };
    let modifier = if m == 0 {
        DrillModifier::Plain
    } else if m == 1 {
        DrillModifier::Filled
    } else if m == 2 {
        DrillModifier::Dot
    } else if m == 3 {
        DrillModifier::Plus
    } else if m == 4 {
        DrillModifier::X
    } else if m == 5 {
        DrillModifier::Bullseye
    } else if m == 6 {
        DrillModifier::HalfFill
    } else {
        DrillModifier::QuarterFill
    };
    let rotation: u32 = if t == 0 {
        0
    } else if t == 1 {
        45
    } else {
        90
    };
    (base, modifier, rotation)
}

/// The final component of a path (`Path::file_name`) as text. For a portable path it
/// is the last `/`-separated piece that is neither empty nor `.`, and none when that
/// piece is `..` or there is none (the text came from a `&str`, so it is valid
/// Unicode). Which other characters separate components, or start a drive or share
/// prefix, depends on the platform, so nothing is stated for other paths.
#[verifier::external_body]
fn path_file_name(path: &str) -> (r: Option<String>)
    ensures
        portable_path(path@) ==> match r {
            Some(n) => file_name_spec(path@) == Some(n@),
            None => file_name_spec(path@) is None,
        },
{
    std::path::Path::new(path).file_name().and_then(|v| v.to_str()).map(|s| s.to_string())
}

/// The board's label given the final component of its path: `name (path)` when that
/// component is not empty, else the path alone.
pub fn board_label_from(board_filename: &str, file_name: Option<String>) -> (r: String)
    ensures
        r@ == match file_name {
            Some(name) => if name@.len() > 0 {
                name@ + " ("@ + board_filename@ + ")"@
            } else {
                board_filename@
            },
            None => board_filename@,
        },
{
    match file_name {
        Some(name) => if name.unicode_len() > 0 {
            let mut s = name;
            s.append(" (");
            s.append(board_filename);
            s.append(")");
            s
        } else {
            board_filename.to_string()
        },
        None => board_filename.to_string(),
    }
}

/// The board's label on the job screen: its file name followed by the full path in
/// brackets, or the path alone when it has no file name.
pub fn board_display_label(board_filename: &str) -> (r: String)
    ensures
        portable_path(board_filename@) ==> r@ == match file_name_spec(board_filename@) {
            Some(name) => if name.len() > 0 {
                name + " ("@ + board_filename@ + ")"@
            } else {
                board_filename@
            },
            None => board_filename@,
        },
        r@ == board_filename@ || exists|name: Seq<char>|
            name.len() > 0 && r@ == name + " ("@ + board_filename@ + ")"@,
{
    let name = path_file_name(board_filename);
    let ghost given = name;
    let r = board_label_from(board_filename, name);
    proof {
        if let Some(n) = given {
            if n@.len() > 0 {
                assert(r@ == n@ + " ("@ + board_filename@ + ")"@);
            }
        }
    }
    r
}

// ---------------------------------------------------------------------------
// Cascading deletes
// ---------------------------------------------------------------------------

/// What deleting a profile takes with it.
#[derive(Clone, Debug)]
pub struct CascadeDeleteImpact {
    pub primary_profiles: Vec<String>,
    pub dependent_process_profiles: Vec<String>,
    pub deleted_live_projects: Vec<String>,
}

/// One `- item` line per item, each after a line break.
pub open spec fn bullet_lines(items: Seq<Seq<char>>) -> Seq<char>
    decreases items.len(),
{
    if items.len() == 0 {
        seq![]
    } else {
        bullet_lines(items.drop_last()) + "\n- "@ + items.last()
    }
}

/// The warning shown before a cascading delete: the prefix, then one `- name` line
/// per affected primary profile, dependent process profile and live project.
pub open spec fn impact_warning(prefix: Seq<char>, impact: CascadeDeleteImpact) -> Seq<char> {
    prefix + bullet_lines(texts(impact.primary_profiles@)) + bullet_lines(texts(impact.dependent_process_profiles@))
        + bullet_lines(texts(impact.deleted_live_projects@))
}

fn push_bullets(s: &mut String, items: &Vec<String>)
    ensures
        final(s)@ == old(s)@ + bullet_lines(texts(items@)),
{
    let ghost start = s@;
    let mut i: usize = 0;
    while i < items.len()
        invariant
            i <= items@.len(),
            s@ == start + bullet_lines(texts(items@.take(i as int))),
        decreases items@.len() - i,
    {
        let ghost before = s@;
        s.append("\n- ");
        s.append(items[i].as_str());
        assert(texts(items@.take(i + 1)).drop_last() =~= texts(items@.take(i as int)));
        assert(texts(items@.take(i + 1)).last() == items@[i as int]@);
        i += 1;
        assert(s@ =~= start + bullet_lines(texts(items@.take(i as int))));
    }
    assert(items@.take(i as int) =~= items@);
}

/// The warning listing everything a delete would take with it, one item per line.
pub fn format_impact_warning(prefix: &str, impact: &CascadeDeleteImpact) -> (r: String)
    ensures
        r@ == impact_warning(prefix@, *impact),
{
    let mut s = prefix.to_string();
    push_bullets(&mut s, &impact.primary_profiles);
    push_bullets(&mut s, &impact.dependent_process_profiles);
    push_bullets(&mut s, &impact.deleted_live_projects);
    s
}

/// The one-line count of what a delete would take with it.
pub fn format_impact_summary(prefix: &str, impact: &CascadeDeleteImpact) -> (r: String)
    ensures
        r@ == prefix@ + ": "@ + decimal(impact.primary_profiles@.len()) + " primary, "@ + decimal(
            impact.dependent_process_profiles@.len(),
        ) + " dependent process profile(s), "@ + decimal(impact.deleted_live_projects@.len())
            + " live project(s)"@,
{
    let mut s = prefix.to_string();
    s.append(": ");
    push_decimal(&mut s, impact.primary_profiles.len() as u64);
    s.append(" primary, ");
    push_decimal(&mut s, impact.dependent_process_profiles.len() as u64);
    s.append(" dependent process profile(s), ");
    push_decimal(&mut s, impact.deleted_live_projects.len() as u64);
    s.append(" live project(s)");
    s
}

// ---------------------------------------------------------------------------
// Profile ids
// ---------------------------------------------------------------------------

/// Sorts profile ids and drops repeats. Time-ordered (version 7) ids then list
/// oldest first.
pub fn sort_uuid_v7_strings(ids: &mut Vec<String>)
    ensures
        strictly_sorted(texts(final(ids)@)),
        texts(final(ids)@).to_set() == texts(old(ids)@).to_set(),
{
    let mut sorted: Vec<String> = Vec::new();
    let mut i: usize = 0;
    while i < ids.len()
        invariant
            i <= ids@.len(),
            ids@ == old(ids)@,
            strictly_sorted(texts(sorted@)),
            texts(sorted@).to_set() == texts(ids@.take(i as int)).to_set(),
        decreases ids@.len() - i,
    {
        let s = ids[i].clone();
        insert_sorted(&mut sorted, s);
        proof {
            assert(texts(ids@.take(i + 1)) =~= texts(ids@.take(i as int)).push(ids@[i as int]@));
            texts(ids@.take(i as int)).lemma_push_to_set_commute(ids@[i as int]@);
        }
        i += 1;
    }
    assert(ids@.take(i as int) =~= ids@);
    *ids = sorted;
}

// ---------------------------------------------------------------------------
// CNC profile editor
// ---------------------------------------------------------------------------

/// The label of a required CNC-profile field, by its dotted path.
pub open spec fn required_field_label(key: Seq<char>) -> Option<Seq<char>> {
    if key == "machine.max_feed_rate"@ {
        Some("Max feed rate"@)
    } else
    if key == "machine.spindle_rpm_min"@ {
        Some("Spindle min"@)
    } else
    if key == "machine.spindle_rpm_max"@ {
        Some("Spindle max"@)
    } else
    if key == "machine.atc_slot_count"@ {
        Some("ATC slots"@)
    } else
    if key == "machine.scaling.x"@ {
        Some("X scale"@)
    } else
    if key == "machine.scaling.y"@ {
        Some("Y scale"@)
    } else
    if key == "machine.line_numbering_increment"@ {
        Some("Line numbering increment"@)
    } else
    if key == "primitives.initialise"@ {
        Some("Initialise primitive"@)
    } else
    if key == "primitives.rapid_move"@ {
        Some("Rapid move primitive"@)
    } else
    if key == "primitives.linear_cut"@ {
        Some("Linear cut primitive"@)
    } else
    if key == "primitives.start_spindle"@ {
        Some("Start spindle primitive"@)
    } else
    if key == "primitives.stop_spindle"@ {
        Some("Stop spindle primitive"@)
    } else
    if key == "primitives.drill"@ {
        Some("Drill primitive"@)
    } else
    if key == "primitives.peck_drill"@ {
        Some("Peck drill primitive"@)
    } else
    if key == "primitives.cut_arc"@ {
        Some("Cut arc primitive"@)
    } else
    if key == "primitives.cut_bezier"@ {
        Some("Cut bezier primitive"@)
    } else
    if key == "primitives.change_tool"@ {
        Some("Change tool primitive"@)
    } else
    if key == "primitives.conclude"@ {
        Some("Conclude primitive"@)
    } else {
        None
    }
}

/// The label shown for a required CNC-profile field missing from a profile, by the
/// field's dotted path; `None` for a path without one.
pub fn cnc_required_field_label(key: &str) -> (r: Option<&'static str>)
    ensures
        match r {
            Some(l) => required_field_label(key@) == Some(l@),
            None => required_field_label(key@) is None,
        },
{
    if text_equal(key, "machine.max_feed_rate") {
        return Some("Max feed rate");
    }
    if text_equal(key, "machine.spindle_rpm_min") {
        return Some("Spindle min");
    }
    if text_equal(key, "machine.spindle_rpm_max") {
        return Some("Spindle max");
    }
    if text_equal(key, "machine.atc_slot_count") {
        return Some("ATC slots");
    }
    if text_equal(key, "machine.scaling.x") {
        return Some("X scale");
    }
    if text_equal(key, "machine.scaling.y") {
        return Some("Y scale");
    }
    if text_equal(key, "machine.line_numbering_increment") {
        return Some("Line numbering increment");
    }
    if text_equal(key, "primitives.initialise") {
        return Some("Initialise primitive");
    }
    if text_equal(key, "primitives.rapid_move") {
        return Some("Rapid move primitive");
    }
    if text_equal(key, "primitives.linear_cut") {
        return Some("Linear cut primitive");
    }
    if text_equal(key, "primitives.start_spindle") {
        return Some("Start spindle primitive");
    }
    if text_equal(key, "primitives.stop_spindle") {
        return Some("Stop spindle primitive");
    }
    if text_equal(key, "primitives.drill") {
        return Some("Drill primitive");
    }
    if text_equal(key, "primitives.peck_drill") {
        return Some("Peck drill primitive");
    }
    if text_equal(key, "primitives.cut_arc") {
        return Some("Cut arc primitive");
    }
    if text_equal(key, "primitives.cut_bezier") {
        return Some("Cut bezier primitive");
    }
    if text_equal(key, "primitives.change_tool") {
        return Some("Change tool primitive");
    }
    if text_equal(key, "primitives.conclude") {
        return Some("Conclude primitive");
    }
    None
}

/// A titled section of the CNC detail editor: the schema pointers of its fields.
#[derive(Clone, Debug)]
pub struct FieldGroup {
    pub title: String,
    pub fields: Vec<String>,
}

/// A field group by its text.
pub open spec fn group_view(g: FieldGroup) -> (Seq<char>, Seq<Seq<char>>) {
    (g.title@, texts(g.fields@))
}

fn field_group(title: &str, fields: Vec<&str>) -> (g: FieldGroup)
    ensures
        g.title@ == title@,
        texts(g.fields@) == fields@.map_values(|f: &str| f@),
{
    let mut out: Vec<String> = Vec::new();
    let mut i: usize = 0;
    while i < fields.len()
        invariant
            i <= fields@.len(),
            texts(out@) == fields@.take(i as int).map_values(|f: &str| f@),
        decreases fields@.len() - i,
    {
        let ghost prev = out@;
        out.push(fields[i].to_string());
        assert(texts(out@) =~= texts(prev).push(fields@[i as int]@));
        i += 1;
        assert(texts(out@) =~= fields@.take(i as int).map_values(|f: &str| f@));
    }
    assert(fields@.take(i as int) =~= fields@);
    FieldGroup { title: title.to_string(), fields: out }
}

/// The CNC detail editor's layout: the titled sections and the schema pointers of
/// the fields in each, in order.
pub open spec fn cnc_layout() -> Seq<(Seq<char>, Seq<Seq<char>>)> {
    seq![
        (""@, seq!["/name"@, "/machine/atc_slot_count"@]),
        ("Feed & spindle"@, seq!["/machine/max_feed_rate"@, "/machine/spindle_rpm_min"@, "/machine/spindle_rpm_max"@]),
        ("Axis scaling"@, seq!["/machine/scaling/x"@, "/machine/scaling/y"@]),
        ("Line numbering"@, seq!["/machine/line_numbering_increment"@]),
        ("Program lifecycle"@, seq!["/primitives/initialise"@, "/primitives/conclude"@]),
        ("Motion / spindle / drilling"@, seq!["/primitives/rapid_move"@, "/primitives/linear_cut"@, "/primitives/start_spindle"@, "/primitives/stop_spindle"@, "/primitives/drill"@, "/primitives/peck_drill"@]),
        ("Arc / bezier & optional"@, seq!["/primitives/cut_arc"@, "/primitives/cut_bezier"@, "/primitives/pause"@, "/primitives/banner"@]),
        ("Tool change"@, seq!["/primitives/change_tool"@]),
        ("Unit switching"@, seq!["/primitives/use_metric"@, "/primitives/use_imperial"@]),
    ]
}

/// The CNC detail editor's layout: machine parameters first, then the primitive
/// templates, each section a list of schema pointers.
pub fn cnc_field_groups() -> (r: Vec<FieldGroup>)
    ensures
        r@.map_values(|g: FieldGroup| group_view(g)) == cnc_layout(),
{
    let mut r: Vec<FieldGroup> = Vec::new();
    let fields: Vec<&str> = vec!["/name", "/machine/atc_slot_count"];
    assert(fields@.map_values(|f: &str| f@) =~= seq!["/name"@, "/machine/atc_slot_count"@]);
    r.push(field_group("", fields));
    assert(group_view(r@[0]) == cnc_layout()[0]);
    let fields: Vec<&str> = vec!["/machine/max_feed_rate", "/machine/spindle_rpm_min", "/machine/spindle_rpm_max"];
    assert(fields@.map_values(|f: &str| f@) =~= seq!["/machine/max_feed_rate"@, "/machine/spindle_rpm_min"@, "/machine/spindle_rpm_max"@]);
    r.push(field_group("Feed & spindle", fields));
    assert(group_view(r@[1]) == cnc_layout()[1]);
    let fields: Vec<&str> = vec!["/machine/scaling/x", "/machine/scaling/y"];
    assert(fields@.map_values(|f: &str| f@) =~= seq!["/machine/scaling/x"@, "/machine/scaling/y"@]);
    r.push(field_group("Axis scaling", fields));
    assert(group_view(r@[2]) == cnc_layout()[2]);
    let fields: Vec<&str> = vec!["/machine/line_numbering_increment"];
    assert(fields@.map_values(|f: &str| f@) =~= seq!["/machine/line_numbering_increment"@]);
    r.push(field_group("Line numbering", fields));
    assert(group_view(r@[3]) == cnc_layout()[3]);
    let fields: Vec<&str> = vec!["/primitives/initialise", "/primitives/conclude"];
    assert(fields@.map_values(|f: &str| f@) =~= seq!["/primitives/initialise"@, "/primitives/conclude"@]);
    r.push(field_group("Program lifecycle", fields));
    assert(group_view(r@[4]) == cnc_layout()[4]);
    let fields: Vec<&str> = vec!["/primitives/rapid_move", "/primitives/linear_cut", "/primitives/start_spindle", "/primitives/stop_spindle", "/primitives/drill", "/primitives/peck_drill"];
    assert(fields@.map_values(|f: &str| f@) =~= seq!["/primitives/rapid_move"@, "/primitives/linear_cut"@, "/primitives/start_spindle"@, "/primitives/stop_spindle"@, "/primitives/drill"@, "/primitives/peck_drill"@]);
    r.push(field_group("Motion / spindle / drilling", fields));
    assert(group_view(r@[5]) == cnc_layout()[5]);
    let fields: Vec<&str> = vec!["/primitives/cut_arc", "/primitives/cut_bezier", "/primitives/pause", "/primitives/banner"];
    assert(fields@.map_values(|f: &str| f@) =~= seq!["/primitives/cut_arc"@, "/primitives/cut_bezier"@, "/primitives/pause"@, "/primitives/banner"@]);
    r.push(field_group("Arc / bezier & optional", fields));
    assert(group_view(r@[6]) == cnc_layout()[6]);
    let fields: Vec<&str> = vec!["/primitives/change_tool"];
    assert(fields@.map_values(|f: &str| f@) =~= seq!["/primitives/change_tool"@]);
    r.push(field_group("Tool change", fields));
    assert(group_view(r@[7]) == cnc_layout()[7]);
    let fields: Vec<&str> = vec!["/primitives/use_metric", "/primitives/use_imperial"];
    assert(fields@.map_values(|f: &str| f@) =~= seq!["/primitives/use_metric"@, "/primitives/use_imperial"@]);
    r.push(field_group("Unit switching", fields));
    assert(group_view(r@[8]) == cnc_layout()[8]);
    assert(r@.map_values(|g: FieldGroup| group_view(g)) =~= cnc_layout());
    r
}

} // verus!
