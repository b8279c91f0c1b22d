//! Reading a machining step out of its profile document. The document's fields are
//! handed over as plain values — `None` where a field is absent or of another type —
//! and every field falls back to the schema's default on its own.

use vstd::prelude::*;

use crate::steps::{Allowance, DrillConfigRaw, EdgeConfigRaw, RetentionRaw, StepRaw};
use crate::rack::opt_view;
use crate::text::{ends_with, lower_text, text_ends_with_ignoring_ascii_case, text_equal, texts};

verus! {

/// A `retention` block as the document holds it.
#[derive(Clone, Debug)]
pub struct RetentionDoc {
    /// `none` or `tabs`.
    pub mode: Option<String>,
    pub count: Option<i64>,
    pub width_um: Option<i64>,
    pub mouse_bites: Option<bool>,
}

/// A `route_board` (or `mill_board`) block as the document holds it.
#[derive(Clone, Debug)]
pub struct EdgeDoc {
    /// `outline/cut`.
    pub cut: Option<String>,
    /// `outline/retention`.
    pub outline: RetentionDoc,
    /// `cutouts/enabled`.
    pub cutouts: Option<bool>,
    /// `cutouts/retention`.
    pub cutout_retention: RetentionDoc,
    pub finishing_um: Option<i64>,
}

/// An `{relative, max}` allowance as the document holds it.
#[derive(Clone, Copy, Debug)]
pub struct AllowanceDoc {
    pub relative_ppm: Option<u32>,
    pub max_um: Option<i64>,
}

/// A drill operation's `holes` block as the document holds it.
#[derive(Clone, Debug)]
pub struct DrillDoc {
    pub route_fallback: Option<bool>,
    pub drill_first: Option<bool>,
    pub pilot: Option<bool>,
    pub oblong: Option<String>,
    pub oversize: AllowanceDoc,
    pub undersize: AllowanceDoc,
}

/// One entry of a profile's `steps` array as the document holds it.
#[derive(Clone, Debug)]
pub struct StepDoc {
    pub name: Option<String>,
    /// The string entries of `operations`, in order.
    pub operations: Vec<String>,
    /// The referenced profiles' ids as text.
    pub cnc: Option<String>,
    pub fixture: Option<String>,
    pub toolset: Option<String>,
    /// `drill_pth/holes` and `drill_npth/holes`.
    pub drill_pth: DrillDoc,
    pub drill_npth: DrillDoc,
    pub route_board: EdgeDoc,
    pub mill_board: EdgeDoc,
    pub board_face: Option<String>,
    /// `drill_locating_pins/pin_diameter`.
    pub pin_diameter_um: Option<i64>,
}

/// A count as the schema reads it: a non-negative integer; anything else is absent.
pub open spec fn count_of(v: Option<i64>) -> Option<usize> {
    match v {
        Some(c) => if 0 <= c <= usize::MAX { Some(c as usize) } else { None },
        None => None,
    }
}

/// The retention a block describes, each field defaulted on its own: tabs unless the
/// mode is `none`.
pub open spec fn retention_spec(doc: RetentionDoc, default: RetentionRaw) -> RetentionRaw {
    RetentionRaw {
        tabs: match doc.mode {
            Some(m) => m@ != "none"@,
            None => default.tabs,
        },
        count: match count_of(doc.count) {
            Some(c) => c,
            None => default.count,
        },
        width_um: match doc.width_um {
            Some(w) => w,
            None => default.width_um,
        },
        mouse_bites: match doc.mouse_bites {
            Some(b) => b,
            None => default.mouse_bites,
        },
    }
}

fn count_value(v: Option<i64>) -> (r: Option<usize>)
    ensures
        r == count_of(v),
{
    match v {
        Some(c) => if c >= 0 && (c as u64) <= (usize::MAX as u64) {
            Some(c as usize)
        } else {
            None
        },
        None => None,
    }
}

/// Reads a `retention` block, falling back to `default` field by field.
pub fn read_retention(doc: &RetentionDoc, default: RetentionRaw) -> (r: RetentionRaw)
    ensures
        r == retention_spec(*doc, default),
{
    RetentionRaw {
        tabs: match &doc.mode {
            Some(m) => !text_equal(m.as_str(), "none"),
            None => default.tabs,
        },
        count: match count_value(doc.count) {
            Some(c) => c,
            None => default.count,
        },
        width_um: match doc.width_um {
            Some(w) => w,
            None => default.width_um,
        },
        mouse_bites: match doc.mouse_bites {
            Some(b) => b,
            None => default.mouse_bites,
        },
    }
}

/// The edge config a block describes, each field defaulted on its own.
pub open spec fn edge_config_matches(r: EdgeConfigRaw, doc: EdgeDoc) -> bool {
    &&& r.cut@ == match doc.cut {
        Some(c) => c@,
        None => "route"@,
    }
    &&& r.outline == retention_spec(doc.outline, RetentionRaw { tabs: true, count: 4, width_um: 2000, mouse_bites: false })
    &&& r.cutouts == match doc.cutouts {
        Some(b) => b,
        None => true,
    }
    &&& r.cutout_retention == retention_spec(
        doc.cutout_retention,
        RetentionRaw { tabs: true, count: 2, width_um: 2000, mouse_bites: false },
    )
    &&& r.finishing_um == match doc.finishing_um {
        Some(f) => f,
        None => 100,
    }
}

/// Reads a `route_board` block, falling back to the schema's defaults field by field.
pub fn read_edge_config(doc: &EdgeDoc) -> (r: EdgeConfigRaw)
    ensures
        edge_config_matches(r, *doc),
{
    let default = EdgeConfigRaw::default();
    EdgeConfigRaw {
        cut: match &doc.cut {
            Some(c) => c.clone(),
            None => default.cut,
        },
        outline: read_retention(&doc.outline, default.outline),
        cutouts: match doc.cutouts {
            Some(b) => b,
            None => default.cutouts,
        },
        cutout_retention: read_retention(&doc.cutout_retention, default.cutout_retention),
        finishing_um: match doc.finishing_um {
            Some(f) => f,
            None => default.finishing_um,
        },
    }
}

/// Reads an allowance, falling back to `fallback` field by field.
pub fn read_allowance(doc: &AllowanceDoc, fallback: Allowance) -> (r: Allowance)
    ensures
        r.relative_ppm == match doc.relative_ppm {
            Some(p) => p,
            None => fallback.relative_ppm,
        },
        r.max_um == match doc.max_um {
            Some(m) => m,
            None => fallback.max_um,
        },
{
    Allowance {
        relative_ppm: match doc.relative_ppm {
            Some(p) => p,
            None => fallback.relative_ppm,
        },
        max_um: match doc.max_um {
            Some(m) => m,
            None => fallback.max_um,
        },
    }
}

/// The drill config a `holes` block describes, each field defaulted on its own.
pub open spec fn drill_config_matches(r: DrillConfigRaw, doc: DrillDoc) -> bool {
    &&& r.route_fallback == match doc.route_fallback {
        Some(b) => b,
        None => false,
    }
    &&& r.drill_first == match doc.drill_first {
        Some(b) => b,
        None => true,
    }
    &&& r.pilot == match doc.pilot {
        Some(b) => b,
        None => false,
    }
    &&& r.oblong@ == match doc.oblong {
        Some(o) => o@,
        None => "drill_ends_then_route"@,
    }
    &&& r.oversize.relative_ppm == match doc.oversize.relative_ppm {
        Some(p) => p,
        None => 80_000,
    }
    &&& r.oversize.max_um == match doc.oversize.max_um {
        Some(m) => m,
        None => 100,
    }
    &&& r.undersize.relative_ppm == match doc.undersize.relative_ppm {
        Some(p) => p,
        None => 60_000,
    }
    &&& r.undersize.max_um == match doc.undersize.max_um {
        Some(m) => m,
        None => 80,
    }
}

/// Reads a drill operation's `holes` block, falling back to the schema's defaults
/// field by field.
pub fn read_drill_config(doc: &DrillDoc) -> (r: DrillConfigRaw)
    ensures
        drill_config_matches(r, *doc),
{
    let default = DrillConfigRaw::default();
    DrillConfigRaw {
        route_fallback: match doc.route_fallback {
            Some(b) => b,
            None => default.route_fallback,
        },
        drill_first: match doc.drill_first {
            Some(b) => b,
            None => default.drill_first,
        },
        pilot: match doc.pilot {
            Some(b) => b,
            None => default.pilot,
        },
        oblong: match &doc.oblong {
            Some(o) => o.clone(),
            None => default.oblong,
        },
        oversize: read_allowance(&doc.oversize, default.oversize),
        undersize: read_allowance(&doc.undersize, default.undersize),
    }
}

/// Whether an operation list holds `key`.
pub open spec fn lists(ops: Seq<String>, key: Seq<char>) -> bool {
    texts(ops).contains(key)
}

fn has_operation(ops: &Vec<String>, key: &str) -> (r: bool)
    ensures
        r == lists(ops@, key@),
{
    let mut i: usize = 0;
    while i < ops.len()
        invariant
            i <= ops@.len(),
            forall|k: int| 0 <= k < i ==> ops@[k]@ != key@,
        decreases ops@.len() - i,
    {
        if text_equal(ops[i].as_str(), key) {
            assert(texts(ops@)[i as int] == key@);
            return true;
        }
        i += 1;
    }
    proof {
        if texts(ops@).contains(key@) {
            let k = choose|k: int| 0 <= k < texts(ops@).len() && texts(ops@)[k] == key@;
            assert(ops@[k]@ == key@);
        }
    }
    false
}

fn copy_text(o: &Option<String>) -> (r: Option<String>)
    ensures
        opt_view(r) == opt_view(*o),
{
    match o {
        Some(s) => Some(s.clone()),
        None => None,
    }
}

fn copy_texts(v: &Vec<String>) -> (r: Vec<String>)
    ensures
        texts(r@) == texts(v@),
{
    let mut r: Vec<String> = Vec::new();
    let mut i: usize = 0;
    while i < v.len()
        invariant
            i <= v@.len(),
            texts(r@) == texts(v@.take(i as int)),
        decreases v@.len() - i,
    {
        let c = v[i].clone();
        let ghost before = r@;
        r.push(c);
        assert(texts(r@) =~= texts(before).push(c@));
        assert(texts(v@.take(i + 1)) =~= texts(v@.take(i as int)).push(v@[i as int]@));
        i += 1;
    }
    assert(v@.take(i as int) =~= v@);
    r
}

/// Whether a board face names the back, in any case.
fn is_back(face: &str) -> (r: bool)
    ensures
        r == (lower_text(face@) == "back"@),
{
    proof {
        reveal_strlit("back");
        assert(lower_text("back"@) =~= "back"@);
    }
    let r = face.unicode_len() == 4 && text_ends_with_ignoring_ascii_case(face, "back");
    proof {
        if face@.len() == 4 {
            assert(lower_text(face@).subrange(0, 4) =~= lower_text(face@));
        }
        if lower_text(face@) == "back"@ {
            assert(face@.len() == 4);
        }
    }
    r
}

/// Reads one step. The drill config comes from the plated-hole operation when the
/// step drills plated holes, else from the non-plated one, else it is the default;
/// the edge config from `mill_board` when the step mills the board, else from
/// `route_board`. A pin diameter is read only when the step drills locating pins, so
/// a step that does not has none. The step machines the back face when its board
/// face is `back` in any case.
pub fn read_step(doc: &StepDoc) -> (r: StepRaw)
    ensures
        r.name@ == match doc.name {
            Some(n) => n@,
            None => ""@,
        },
        texts(r.operations@) == texts(doc.operations@),
        opt_view(r.cnc_id) == opt_view(doc.cnc),
        opt_view(r.fixture_id) == opt_view(doc.fixture),
        opt_view(r.toolset_id) == opt_view(doc.toolset),
        if lists(doc.operations@, "drill_pth"@) {
            drill_config_matches(r.drill, doc.drill_pth)
        } else if lists(doc.operations@, "drill_npth"@) {
            drill_config_matches(r.drill, doc.drill_npth)
        } else {
            drill_config_matches(
                r.drill,
                DrillDoc {
                    route_fallback: None,
                    drill_first: None,
                    pilot: None,
                    oblong: None,
                    oversize: AllowanceDoc { relative_ppm: None, max_um: None },
                    undersize: AllowanceDoc { relative_ppm: None, max_um: None },
                },
            )
        },
        edge_config_matches(
            r.route_board,
            if lists(doc.operations@, "mill_board"@) {
                doc.mill_board
            } else {
                doc.route_board
            },
        ),
        r.pin_diameter_um == if lists(doc.operations@, "drill_locating_pins"@) {
            doc.pin_diameter_um
        } else {
            None
        },
        r.machines_back == match doc.board_face {
            Some(f) => lower_text(f@) == "back"@,
            None => false,
        },
{
    let ops = copy_texts(&doc.operations);
    let drill = if has_operation(&doc.operations, "drill_pth") {
        read_drill_config(&doc.drill_pth)
    } else if has_operation(&doc.operations, "drill_npth") {
        read_drill_config(&doc.drill_npth)
    } else {
        DrillConfigRaw::default()
    };
    let route_board = if has_operation(&doc.operations, "mill_board") {
        read_edge_config(&doc.mill_board)
    } else {
        read_edge_config(&doc.route_board)
    };
    let pin_diameter_um = if has_operation(&doc.operations, "drill_locating_pins") {
        doc.pin_diameter_um
    } else {
        None
    };
    let machines_back = match &doc.board_face {
        Some(f) => is_back(f.as_str()),
        None => false,
    };
    proof {
        reveal_strlit("");
    }
    StepRaw {
        name: match &doc.name {
            Some(n) => n.clone(),
            None => String::new(),
        },
        operations: ops,
        cnc_id: copy_text(&doc.cnc),
        fixture_id: copy_text(&doc.fixture),
        toolset_id: copy_text(&doc.toolset),
        drill,
        route_board,
        machines_back,
        pin_diameter_um,
    }
}

} // verus!
