//! The machining steps of a profile as the planners read them, and the readiness
//! rules that span steps: every binding set, and locating pins where the board turns
//! over.

use vstd::prelude::*;

use crate::holes::{group_of, BoardHole, HoleGroup};
use crate::text::{decimal, push_decimal, text_equal};

verus! {

/// How a through-cut contour is held until the operator breaks it out.
#[derive(Clone, Copy, Debug)]
pub struct RetentionRaw {
    /// `none` or `tabs`.
    pub tabs: bool,
    /// How many to place when the job positions none itself.
    pub count: usize,
    /// Length of contour each tab leaves uncut, in micrometres.
    pub width_um: i64,
    /// Perforate each tab so it snaps cleanly.
    pub mouse_bites: bool,
}

impl RetentionRaw {
    /// The schema's defaults, with `count` varying by what is being held.
    pub fn defaults(count: usize) -> (r: RetentionRaw)
        ensures
            r == (RetentionRaw { tabs: true, count, width_um: 2000, mouse_bites: false }),
    {
        RetentionRaw { tabs: true, count, width_um: 2000, mouse_bites: false }
    }
}

/// The step's board-routing policy, defaulted when absent.
#[derive(Clone, Debug)]
pub struct EdgeConfigRaw {
    /// How the boundary is made: `route | mill | score | vgroove`.
    pub cut: String,
    /// Retention for the board's own boundary.
    pub outline: RetentionRaw,
    /// Whether interior openings are routed as well as the boundary.
    pub cutouts: bool,
    /// Retention for those interior openings.
    pub cutout_retention: RetentionRaw,
    /// Material left on the wall for a finishing pass, in micrometres; zero means none.
    pub finishing_um: i64,
}

impl EdgeConfigRaw {
    /// The retention policy for one contour kind.
    pub fn retention(&self, is_cutout: bool) -> (r: RetentionRaw)
        ensures
            r == (if is_cutout { self.cutout_retention } else { self.outline }),
    {
        if is_cutout {
            self.cutout_retention
        } else {
            self.outline
        }
    }

    /// Whether the boundary is cut right through by a router.
    pub fn cuts_through(&self) -> (r: bool)
        ensures
            r == (self.cut@ == "route"@ || self.cut@ == "mill"@),
    {
        text_equal(self.cut.as_str(), "route") || text_equal(self.cut.as_str(), "mill")
    }
}

impl Default for EdgeConfigRaw {
    /// The schema's own defaults for `route_board`.
    fn default() -> (r: EdgeConfigRaw)
        ensures
            r.cut@ == "route"@,
            r.outline == (RetentionRaw { tabs: true, count: 4, width_um: 2000, mouse_bites: false }),
            r.cutouts,
            r.cutout_retention == (RetentionRaw { tabs: true, count: 2, width_um: 2000, mouse_bites: false }),
            r.finishing_um == 100,
    {
        EdgeConfigRaw {
            cut: String::from_str("route"),
            outline: RetentionRaw::defaults(4),
            cutouts: true,
            cutout_retention: RetentionRaw::defaults(2),
            finishing_um: 100,
        }
    }
}

/// A size allowance: a fraction of the size (in parts per million), capped.
#[derive(Clone, Copy, Debug)]
pub struct Allowance {
    pub relative_ppm: u32,
    pub max_um: i64,
}

/// The step's drill `holes` config, defaulted when absent.
#[derive(Clone, Debug)]
pub struct DrillConfigRaw {
    pub route_fallback: bool,
    pub drill_first: bool,
    pub pilot: bool,
    /// Oblong-hole strategy: `route | drill_ends_then_route | drill_chain | drill_chain_then_route`.
    pub oblong: String,
    pub oversize: Allowance,
    pub undersize: Allowance,
}

impl Default for DrillConfigRaw {
    /// The schema's defaults: no routing fallback, drill first, no pilot, drill the
    /// ends then route, +8 % (≤ 0.10 mm) / −6 % (≤ 0.08 mm).
    fn default() -> (r: DrillConfigRaw)
        ensures
            !r.route_fallback,
            r.drill_first,
            !r.pilot,
            r.oblong@ == "drill_ends_then_route"@,
            r.oversize == (Allowance { relative_ppm: 80_000, max_um: 100 }),
            r.undersize == (Allowance { relative_ppm: 60_000, max_um: 80 }),
    {
        DrillConfigRaw {
            route_fallback: false,
            drill_first: true,
            pilot: false,
            oblong: String::from_str("drill_ends_then_route"),
            oversize: Allowance { relative_ppm: 80_000, max_um: 100 },
            undersize: Allowance { relative_ppm: 60_000, max_um: 80 },
        }
    }
}

/// How a step makes an oblong hole.
#[derive(Clone, Copy, Debug, PartialEq, Eq, Structural)]
pub enum OblongStrategy {
    /// Mill the whole slot with a router.
    Route,
    /// Drill the two end centres, then mill the web between them.
    DrillEndsThenRoute,
    /// A chain of overlapping drills — the scallops between them are the finished wall.
    DrillChain,
    /// A chain of overlapping drills, then a router cleanup pass on the walls.
    DrillChainThenRoute,
}

/// The strategy a schema key names; unknown or missing keys fall back to the schema's
/// default, drilling the ends then routing.
pub open spec fn oblong_from_key(key: Seq<char>) -> OblongStrategy {
    if key == "route"@ {
        OblongStrategy::Route
    } else if key == "drill_chain"@ {
        OblongStrategy::DrillChain
    } else if key == "drill_chain_then_route"@ {
        OblongStrategy::DrillChainThenRoute
    } else {
        OblongStrategy::DrillEndsThenRoute
    }
}

impl OblongStrategy {
    /// Parses the schema key, falling back to the schema's own default so an unknown or
    /// missing value machines conservatively rather than not at all.
    pub fn from_key(key: &str) -> (r: OblongStrategy)
        ensures
            r == oblong_from_key(key@),
    {
        if text_equal(key, "route") {
            OblongStrategy::Route
        } else if text_equal(key, "drill_chain") {
            OblongStrategy::DrillChain
        } else if text_equal(key, "drill_chain_then_route") {
            OblongStrategy::DrillChainThenRoute
        } else {
            OblongStrategy::DrillEndsThenRoute
        }
    }

    /// Whether the strategy puts a drill in the slot at all.
    pub fn drills(self) -> (r: bool)
        ensures
            r == (self != OblongStrategy::Route),
    {
        !matches!(self, OblongStrategy::Route)
    }

    /// Whether the strategy needs a router — and so a cutter that fits the slot width.
    pub fn routes(self) -> (r: bool)
        ensures
            r == (self != OblongStrategy::DrillChain),
    {
        !matches!(self, OblongStrategy::DrillChain)
    }

    /// Whether the router meets full material: false only when a drill chain has
    /// already opened the channel.
    pub fn routes_from_solid(self) -> (r: bool)
        ensures
            r == (self != OblongStrategy::DrillChainThenRoute),
    {
        !matches!(self, OblongStrategy::DrillChainThenRoute)
    }
}

/// Per-step data as the planners read it.
#[derive(Clone, Debug)]
pub struct StepRaw {
    /// The name as it is shown.
    pub name: String,
    /// The enabled operation keys.
    pub operations: Vec<String>,
    /// The bound CNC, fixture and toolset profiles, by id as the store writes it.
    pub cnc_id: Option<String>,
    pub fixture_id: Option<String>,
    pub toolset_id: Option<String>,
    pub drill: DrillConfigRaw,
    pub route_board: EdgeConfigRaw,
    /// The step machines the back face of the board.
    pub machines_back: bool,
    /// The registration pin this step drills for, in micrometres, when it drills
    /// locating pins at all.
    pub pin_diameter_um: Option<i64>,
}

/// Whether the step enables the operation `key`.
pub open spec fn enables(step: StepRaw, key: Seq<char>) -> bool {
    exists|i: int| 0 <= i < step.operations@.len() && (#[trigger] step.operations@[i])@ == key
}

/// Whether the step drills locating pins.
pub open spec fn drills_pins(step: StepRaw) -> bool {
    enables(step, "drill_locating_pins"@)
}

impl StepRaw {
    fn enabled(&self, key: &str) -> (r: bool)
        ensures
            r == enables(*self, key@),
    {
        let mut i: usize = 0;
        while i < self.operations.len()
            invariant
                i <= self.operations@.len(),
                forall|k: int| 0 <= k < i ==> self.operations@[k]@ != key@,
            decreases self.operations@.len() - i,
        {
            if text_equal(self.operations[i].as_str(), key) {
                return true;
            }
            i += 1;
        }
        false
    }

    /// Plated holes: pads and vias.
    pub fn drills_pth(&self) -> (r: bool)
        ensures
            r == enables(*self, "drill_pth"@),
    {
        self.enabled("drill_pth")
    }

    /// Non-plated holes: mounting holes and the like.
    pub fn drills_npth(&self) -> (r: bool)
        ensures
            r == enables(*self, "drill_npth"@),
    {
        self.enabled("drill_npth")
    }

    /// The board boundary, by either route (a contour cut) or mill (area clearing).
    pub fn routes_outline(&self) -> (r: bool)
        ensures
            r == (enables(*self, "route_board"@) || enables(*self, "mill_board"@)),
    {
        self.enabled("route_board") || self.enabled("mill_board")
    }

    /// Registration pins: two holes on the fixture's flip line.
    pub fn drills_locating_pins(&self) -> (r: bool)
        ensures
            r == drills_pins(*self),
    {
        self.enabled("drill_locating_pins")
    }

    /// How this step makes an oblong hole.
    pub fn oblong_strategy(&self) -> (r: OblongStrategy)
        ensures
            r == oblong_from_key(self.drill.oblong@),
    {
        OblongStrategy::from_key(self.drill.oblong.as_str())
    }
}

/// What the selected step machines, as the Board view needs it.
#[derive(Clone, Copy, Debug, PartialEq, Eq, Structural)]
pub struct StepTargets {
    pub pth: bool,
    pub npth: bool,
    /// The board boundary.
    pub outline: bool,
}

impl StepTargets {
    /// What a step machines, from the same predicates the plans use.
    pub fn of_step(raw: &StepRaw) -> (r: StepTargets)
        ensures
            r.pth == enables(*raw, "drill_pth"@),
            r.npth == enables(*raw, "drill_npth"@),
            r.outline == (enables(*raw, "route_board"@) || enables(*raw, "mill_board"@)),
    {
        StepTargets { pth: raw.drills_pth(), npth: raw.drills_npth(), outline: raw.routes_outline() }
    }

    /// Whether this step makes `hole`: exactly when the hole falls in a requirement
    /// group of the enabled operations.
    pub fn machines(&self, hole: &BoardHole) -> (r: bool)
        ensures
            r == group_of(*hole, self.pth, self.npth) is Some,
    {
        HoleGroup::from_hole(hole, self.pth, self.npth).is_some()
    }
}

/// What a step machines, by its enabled operations.
pub open spec fn targets_of(raw: StepRaw) -> StepTargets {
    StepTargets {
        pth: enables(raw, "drill_pth"@),
        npth: enables(raw, "drill_npth"@),
        outline: enables(raw, "route_board"@) || enables(raw, "mill_board"@),
    }
}

/// What the step at `index` of a machining profile's steps machines, or `None` when
/// there is no such step — the Board view then draws the whole board.
pub fn step_targets(steps: &Vec<StepRaw>, index: usize) -> (r: Option<StepTargets>)
    ensures
        index < steps@.len() ==> r == Some(targets_of(steps@[index as int])),
        index >= steps@.len() ==> r is None,
{
    if index < steps.len() {
        Some(StepTargets::of_step(&steps[index]))
    } else {
        None
    }
}

// ---------------------------------------------------------------------------
// Bindings
// ---------------------------------------------------------------------------

/// The labels of the unset bindings, in the order CNC, fixture, toolset.
pub open spec fn missing_labels(step: StepRaw) -> Seq<Seq<char>> {
    (if step.cnc_id is None { seq!["CNC"@] } else { Seq::empty() }) + (if step.fixture_id is None {
        seq!["fixture"@]
    } else {
        Seq::empty()
    }) + (if step.toolset_id is None { seq!["toolset"@] } else { Seq::empty() })
}

/// Texts joined by a separator.
pub open spec fn join(parts: Seq<Seq<char>>, sep: Seq<char>) -> Seq<char>
    decreases parts.len(),
{
    if parts.len() == 0 {
        Seq::empty()
    } else if parts.len() == 1 {
        parts[0]
    } else {
        join(parts.drop_last(), sep) + sep + parts.last()
    }
}

/// The operator-facing reason a step cannot be planned for want of a profile.
pub open spec fn missing_bindings_spec(step: StepRaw) -> Option<Seq<char>> {
    if missing_labels(step).len() == 0 {
        None
    } else {
        Some("This step has no "@ + join(missing_labels(step), ", no "@) + " profile selected."@)
    }
}

/// The reason a step cannot be planned for want of a profile, or `None` when all three
/// bindings are set. A fresh step names all three at once rather than one per attempt.
pub fn missing_bindings(raw: &StepRaw) -> (r: Option<String>)
    ensures
        match r {
            Some(s) => missing_bindings_spec(*raw) == Some(s@),
            None => missing_bindings_spec(*raw) is None,
        },
{
    let mut labels: Vec<&str> = Vec::new();
    if raw.cnc_id.is_none() {
        labels.push("CNC");
    }
    if raw.fixture_id.is_none() {
        labels.push("fixture");
    }
    if raw.toolset_id.is_none() {
        labels.push("toolset");
    }
    let ghost want = missing_labels(*raw);
    assert(labels@.map_values(|l: &str| l@) =~= want);
    if labels.len() == 0 {
        return None;
    }
    let mut s = String::from_str("This step has no ");
    let ghost prefix = s@;
    let mut i: usize = 0;
    while i < labels.len()
        invariant
            i <= labels@.len(),
            labels@.len() > 0,
            labels@.map_values(|l: &str| l@) == want,
            s@ == prefix + join(want.take(i as int), ", no "@),
        decreases labels@.len() - i,
    {
        proof {
            assert(want.take(i + 1).drop_last() =~= want.take(i as int));
            assert(want.take(i + 1).last() == labels@[i as int]@);
        }
        if i > 0 {
            s.append(", no ");
        }
        s.append(labels[i]);
        proof {
            if i == 0 {
                assert(want.take(1).len() == 1);
                assert(s@ =~= prefix + join(want.take(1), ", no "@));
            } else {
                assert(s@ =~= prefix + join(want.take(i + 1), ", no "@));
            }
        }
        i += 1;
    }
    s.append(" profile selected.");
    proof {
        assert(want.take(labels@.len() as int) =~= want);
    }
    Some(s)
}

// ---------------------------------------------------------------------------
// Locating pins and face changes
// ---------------------------------------------------------------------------

/// How a step is referred to in a message: `step 2 'Pins'`.
pub open spec fn step_reference_spec(index: int, name: Seq<char>) -> Seq<char> {
    "step "@ + decimal((index + 1) as nat) + " '"@ + name + "'"@
}

/// How a step is referred to in a message: its 1-based number and its name.
pub fn step_reference(index: usize, name: &String) -> (s: String)
    requires
        index < usize::MAX,
    ensures
        s@ == step_reference_spec(index as int, name@),
{
    let mut s = String::from_str("step ");
    push_decimal(&mut s, (index + 1) as u64);
    s.append(" '");
    s.append(name.as_str());
    s.append("'");
    s
}

/// The fault of a pins step that is not the first.
pub open spec fn not_first_fault(index: int, name: Seq<char>) -> Seq<char> {
    step_reference_spec(index, name)
        + " drills locating pins but is not the first step. Registration has to be drilled before anything else cuts the board — move it to the top."@
}

/// The fault of a pins step on the back face.
pub open spec fn back_face_fault(index: int, name: Seq<char>) -> Seq<char> {
    step_reference_spec(index, name)
        + " drills locating pins on the back face. Pins are what lets the board be turned over, so they are drilled on the front — set its board face to front."@
}

/// The fault of an unregistered face change between steps `a` and `b` (0-based).
pub open spec fn face_change_fault(a: int, b: int) -> Seq<char> {
    "steps "@ + decimal((a + 1) as nat) + " and "@ + decimal((b + 1) as nat)
        + " machine different faces but no locating-pins step precedes them — add one first"@
}

/// The faults of the pins steps among the first `n` steps, in step order.
pub open spec fn pin_step_faults(steps: Seq<StepRaw>, n: int) -> Seq<Seq<char>>
    decreases n,
{
    if n <= 0 {
        Seq::empty()
    } else {
        let i = n - 1;
        let s = steps[i];
        pin_step_faults(steps, n - 1) + if !drills_pins(s) {
            Seq::empty()
        } else {
            (if i > 0 { seq![not_first_fault(i, s.name@)] } else { Seq::empty() }) + (if s.machines_back {
                seq![back_face_fault(i, s.name@)]
            } else {
                Seq::empty()
            })
        }
    }
}

/// The first step at or after `from` that machines another face than the first step.
pub open spec fn first_other_face(steps: Seq<StepRaw>, from: int) -> Option<int>
    decreases steps.len() - from,
{
    if from >= steps.len() || from < 0 {
        None
    } else if steps[from].machines_back != steps[0].machines_back {
        Some(from)
    } else {
        first_other_face(steps, from + 1)
    }
}

/// The first two steps that machine opposite faces, as (earlier, later): the first
/// step and the first that differs from it — where the board turns over.
pub open spec fn first_face_change_spec(steps: Seq<StepRaw>) -> Option<(int, int)> {
    match first_other_face(steps, 0) {
        Some(b) => Some((0, b)),
        None => None,
    }
}

/// The first step that drills locating pins.
pub open spec fn first_pins_step(steps: Seq<StepRaw>, from: int) -> Option<int>
    decreases steps.len() - from,
{
    if from >= steps.len() || from < 0 {
        None
    } else if drills_pins(steps[from]) {
        Some(from)
    } else {
        first_pins_step(steps, from + 1)
    }
}

/// Everything wrong with how a profile arranges its locating-pin step: pins not
/// first, pins on the back, and a face change with no pins step before it.
pub open spec fn locating_pin_faults_spec(steps: Seq<StepRaw>) -> Seq<Seq<char>> {
    pin_step_faults(steps, steps.len() as int) + match first_face_change_spec(steps) {
        Some((a, b)) => {
            let registered = match first_pins_step(steps, 0) {
                Some(at) => at < b,
                None => false,
            };
            if registered { Seq::empty() } else { seq![face_change_fault(a, b)] }
        },
        None => Seq::empty(),
    }
}

/// The first two steps that machine opposite faces, as `(earlier, later)` indexes.
pub fn first_face_change(steps: &Vec<StepRaw>) -> (r: Option<(usize, usize)>)
    ensures
        match r {
            Some((a, b)) => first_face_change_spec(steps@) == Some((a as int, b as int)),
            None => first_face_change_spec(steps@) is None,
        },
{
    if steps.len() == 0 {
        return None;
    }
    let first_back = steps[0].machines_back;
    let mut at: usize = 0;
    while at < steps.len()
        invariant
            at <= steps@.len(),
            steps@.len() > 0,
            first_back == steps@[0].machines_back,
            first_other_face(steps@, 0) == first_other_face(steps@, at as int),
        decreases steps@.len() - at,
    {
        if steps[at].machines_back != first_back {
            return Some((0, at));
        }
        at += 1;
    }
    None
}

fn first_pins(steps: &Vec<StepRaw>) -> (r: Option<usize>)
    ensures
        match r {
            Some(i) => first_pins_step(steps@, 0) == Some(i as int),
            None => first_pins_step(steps@, 0) is None,
        },
{
    let mut at: usize = 0;
    while at < steps.len()
        invariant
            at <= steps@.len(),
            first_pins_step(steps@, 0) == first_pins_step(steps@, at as int),
        decreases steps@.len() - at,
    {
        if steps[at].drills_locating_pins() {
            return Some(at);
        }
        at += 1;
    }
    None
}

fn face_change_message(a: usize, b: usize) -> (s: String)
    requires
        a < usize::MAX,
        b < usize::MAX,
    ensures
        s@ == face_change_fault(a as int, b as int),
{
    let mut s = String::from_str("steps ");
    push_decimal(&mut s, (a + 1) as u64);
    s.append(" and ");
    push_decimal(&mut s, (b + 1) as u64);
    s.append(" machine different faces but no locating-pins step precedes them — add one first");
    s
}

/// Everything wrong with how a profile arranges its locating-pin step, one
/// operator-facing sentence each; empty when the arrangement is sound.
///
/// 1. Pins come first. 2. Pins are a front-face operation. 3. A face change needs
/// pins drilled before the step that turns the board over.
pub fn locating_pin_faults(steps: &Vec<StepRaw>) -> (faults: Vec<String>)
    ensures
        faults@.map_values(|f: String| f@) == locating_pin_faults_spec(steps@),
{
    let mut faults: Vec<String> = Vec::new();
    let first_pins_at = first_pins(steps);
    let mut index: usize = 0;
    while index < steps.len()
        invariant
            index <= steps@.len(),
            faults@.map_values(|f: String| f@) == pin_step_faults(steps@, index as int),
        decreases steps@.len() - index,
    {
        let step = &steps[index];
        let ghost before = faults@;
        if step.drills_locating_pins() {
            if index > 0 {
                let mut m = step_reference(index, &step.name);
                m.append(" drills locating pins but is not the first step. Registration has to be drilled before anything else cuts the board — move it to the top.");
                faults.push(m);
            }
            let ghost mid = faults@;
            if step.machines_back {
                let mut m = step_reference(index, &step.name);
                m.append(" drills locating pins on the back face. Pins are what lets the board be turned over, so they are drilled on the front — set its board face to front.");
                faults.push(m);
            }
            proof {
                assert(faults@.map_values(|f: String| f@) =~= pin_step_faults(steps@, index + 1));
            }
        } else {
            proof {
                assert(faults@.map_values(|f: String| f@) =~= pin_step_faults(steps@, index + 1));
            }
        }
        index += 1;
    }
    proof {
        lemma_first_other_face_range(steps@, 0);
    }
    match first_face_change(steps) {
        Some((a, b)) => {
            let registered = match first_pins_at {
                Some(at) => at < b,
                None => false,
            };
            if !registered {
                let ghost before = faults@;
                faults.push(face_change_message(a, b));
                proof {
                    assert(faults@.map_values(|f: String| f@) =~= before.map_values(|f: String| f@).push(
                        face_change_fault(a as int, b as int),
                    ));
                }
            }
        },
        None => {},
    }
    proof {
        assert(faults@.map_values(|f: String| f@) =~= locating_pin_faults_spec(steps@));
    }
    faults
}

/// A profile that machines one face throughout and drills no pins has no pin faults:
/// the common single-sided job stays frictionless.
pub proof fn lemma_single_sided_job_needs_no_pins(steps: Seq<StepRaw>)
    requires
        forall|i: int| 0 <= i < steps.len() ==> (#[trigger] steps[i]).machines_back == steps[0].machines_back,
        forall|i: int| 0 <= i < steps.len() ==> !drills_pins(#[trigger] steps[i]),
    ensures
        locating_pin_faults_spec(steps).len() == 0,
{
    lemma_no_pin_step_faults(steps, steps.len() as int);
    lemma_first_other_face_none(steps, 0);
}

proof fn lemma_no_pin_step_faults(steps: Seq<StepRaw>, n: int)
    requires
        0 <= n <= steps.len(),
        forall|i: int| 0 <= i < steps.len() ==> !drills_pins(#[trigger] steps[i]),
    ensures
        pin_step_faults(steps, n).len() == 0,
    decreases n,
{
    if n > 0 {
        lemma_no_pin_step_faults(steps, n - 1);
        assert(!drills_pins(steps[n - 1]));
    }
}

proof fn lemma_first_other_face_none(steps: Seq<StepRaw>, from: int)
    requires
        0 <= from,
        forall|i: int| 0 <= i < steps.len() ==> (#[trigger] steps[i]).machines_back == steps[0].machines_back,
    ensures
        first_other_face(steps, from) is None,
    decreases steps.len() - from,
{
    if from < steps.len() {
        assert(steps[from].machines_back == steps[0].machines_back);
        lemma_first_other_face_none(steps, from + 1);
    }
}

/// A board turned over with no pins step before the turn is refused: a face change
/// that no earlier pins step registers always yields the face-change fault.
pub proof fn lemma_unregistered_face_change_is_refused(steps: Seq<StepRaw>, b: int)
    requires
        0 < b < steps.len(),
        steps[b].machines_back != steps[0].machines_back,
        forall|i: int| 0 <= i < b ==> !drills_pins(#[trigger] steps[i]),
    ensures
        exists|a: int, c: int| 0 <= a < c <= b && locating_pin_faults_spec(steps).contains(face_change_fault(a, c)),
{
    lemma_first_other_face_bound(steps, 0, b);
    let c = first_other_face(steps, 0)->0;
    lemma_first_pins_after(steps, 0, b);
    let faults = locating_pin_faults_spec(steps);
    let head = pin_step_faults(steps, steps.len() as int);
    assert(faults[head.len() as int] == face_change_fault(0, c));
}

proof fn lemma_first_other_face_bound(steps: Seq<StepRaw>, from: int, b: int)
    requires
        0 <= from <= b < steps.len(),
        steps[b].machines_back != steps[0].machines_back,
    ensures
        first_other_face(steps, from) matches Some(c) && from <= c <= b && c > 0,
    decreases b - from,
{
    if steps[from].machines_back == steps[0].machines_back {
        lemma_first_other_face_bound(steps, from + 1, b);
    }
}

proof fn lemma_first_pins_range(steps: Seq<StepRaw>, from: int)
    ensures
        first_pins_step(steps, from) matches Some(at) ==> from <= at < steps.len(),
    decreases steps.len() - from,
{
    if 0 <= from < steps.len() && !drills_pins(steps[from]) {
        lemma_first_pins_range(steps, from + 1);
    }
}

proof fn lemma_first_other_face_range(steps: Seq<StepRaw>, from: int)
    ensures
        first_other_face(steps, from) matches Some(c) ==> from <= c < steps.len(),
    decreases steps.len() - from,
{
    if 0 <= from < steps.len() && steps[from].machines_back == steps[0].machines_back {
        lemma_first_other_face_range(steps, from + 1);
    }
}

proof fn lemma_first_pins_after(steps: Seq<StepRaw>, from: int, b: int)
    requires
        0 <= from <= b,
        forall|i: int| 0 <= i < b ==> !drills_pins(#[trigger] steps[i]),
    ensures
        first_pins_step(steps, from) matches Some(at) ==> at >= b,
    decreases steps.len() - from,
{
    lemma_first_pins_range(steps, from);
    if from < steps.len() && from < b {
        assert(!drills_pins(steps[from]));
        lemma_first_pins_after(steps, from + 1, b);
    }
}

/// Whether a fault line is one a pins step among the first `n` steps raises.
pub open spec fn is_pin_step_fault(steps: Seq<StepRaw>, n: int, f: Seq<char>) -> bool {
    exists|i: int|
        0 <= i < n && drills_pins(#[trigger] steps[i]) && ((i > 0 && f == not_first_fault(i, steps[i].name@)) || (
        steps[i].machines_back && f == back_face_fault(i, steps[i].name@)))
}

proof fn lemma_pin_step_faults(steps: Seq<StepRaw>, n: int)
    requires
        0 <= n <= steps.len(),
    ensures
        forall|f: Seq<char>| #[trigger] pin_step_faults(steps, n).contains(f) ==> is_pin_step_fault(steps, n, f),
        forall|i: int|
            0 < i < n && drills_pins(#[trigger] steps[i]) ==> pin_step_faults(steps, n).contains(
                not_first_fault(i, steps[i].name@),
            ),
        forall|i: int|
            0 <= i < n && drills_pins(#[trigger] steps[i]) && steps[i].machines_back ==> pin_step_faults(
                steps,
                n,
            ).contains(back_face_fault(i, steps[i].name@)),
    decreases n,
{
    if n > 0 {
        lemma_pin_step_faults(steps, n - 1);
        let prev = pin_step_faults(steps, n - 1);
        let k = n - 1;
        let st = steps[k];
        let a: Seq<Seq<char>> = if k > 0 { seq![not_first_fault(k, st.name@)] } else { Seq::empty() };
        let b: Seq<Seq<char>> = if st.machines_back { seq![back_face_fault(k, st.name@)] } else { Seq::empty() };
        let tail: Seq<Seq<char>> = if !drills_pins(st) { Seq::empty() } else { a + b };
        let cur = pin_step_faults(steps, n);
        assert(cur == prev + tail);
        assert forall|f: Seq<char>| #[trigger] cur.contains(f) implies is_pin_step_fault(steps, n, f) by {
            let j = choose|j: int| 0 <= j < cur.len() && cur[j] == f;
            if j < prev.len() {
                assert(prev.contains(f));
                let i = choose|i: int|
                    0 <= i < n - 1 && drills_pins(#[trigger] steps[i]) && ((i > 0 && f == not_first_fault(
                        i,
                        steps[i].name@,
                    )) || (steps[i].machines_back && f == back_face_fault(i, steps[i].name@)));
                assert(drills_pins(steps[i]));
            } else {
                assert(tail[j - prev.len()] == f);
                assert(drills_pins(steps[k]));
                if k > 0 && j - prev.len() == 0 {
                    assert(f == not_first_fault(k, steps[k].name@));
                } else {
                    assert(f == back_face_fault(k, steps[k].name@));
                }
            }
        }
        assert forall|i: int| 0 < i < n && drills_pins(#[trigger] steps[i]) implies cur.contains(
            not_first_fault(i, steps[i].name@),
        ) by {
            if i < n - 1 {
                let j = choose|j: int| 0 <= j < prev.len() && prev[j] == not_first_fault(i, steps[i].name@);
                assert(cur[j] == prev[j]);
            } else {
                assert(cur[prev.len() as int] == not_first_fault(i, steps[i].name@));
            }
        }
        assert forall|i: int| 0 <= i < n && drills_pins(#[trigger] steps[i]) && steps[i].machines_back implies cur.contains(
            back_face_fault(i, steps[i].name@),
        ) by {
            if i < n - 1 {
                let j = choose|j: int| 0 <= j < prev.len() && prev[j] == back_face_fault(i, steps[i].name@);
                assert(cur[j] == prev[j]);
            } else {
                assert(cur[(prev.len() + a.len()) as int] == back_face_fault(i, steps[i].name@));
            }
        }
    }
}

/// Whether the board turns over (between the first step and `b`) with no pins step
/// before the turn.
pub open spec fn unregistered_turn(steps: Seq<StepRaw>, b: int) -> bool {
    &&& first_face_change_spec(steps) == Some((0int, b))
    &&& !(first_pins_step(steps, 0) matches Some(p) && p < b)
}

/// The locating-pin faults are exactly: a not-first line for every pins step after the
/// first step, a back-face line for every pins step on the back face, and one
/// face-change line naming the first two steps on different faces when the board turns
/// over with no pins step before the turn; nothing else.
pub proof fn lemma_pin_fault_lines(steps: Seq<StepRaw>)
    ensures
        forall|i: int|
            0 < i < steps.len() && drills_pins(#[trigger] steps[i]) ==> locating_pin_faults_spec(steps).contains(
                not_first_fault(i, steps[i].name@),
            ),
        forall|i: int|
            0 <= i < steps.len() && drills_pins(#[trigger] steps[i]) && steps[i].machines_back
                ==> locating_pin_faults_spec(steps).contains(back_face_fault(i, steps[i].name@)),
        forall|b: int| #[trigger] unregistered_turn(steps, b) ==> locating_pin_faults_spec(steps).contains(face_change_fault(0, b)),
        forall|f: Seq<char>|
            #[trigger] locating_pin_faults_spec(steps).contains(f) ==> is_pin_step_fault(steps, steps.len() as int, f)
                || exists|b: int| unregistered_turn(steps, b) && f == face_change_fault(0, b),
{
    let n = steps.len() as int;
    lemma_pin_step_faults(steps, n);
    let head = pin_step_faults(steps, n);
    let all = locating_pin_faults_spec(steps);
    let tail = all.subrange(head.len() as int, all.len() as int);
    assert(all == head + tail);
    assert forall|i: int| 0 < i < steps.len() && drills_pins(#[trigger] steps[i]) implies all.contains(
        not_first_fault(i, steps[i].name@),
    ) by {
        let j = choose|j: int| 0 <= j < head.len() && head[j] == not_first_fault(i, steps[i].name@);
        assert(all[j] == head[j]);
    }
    assert forall|i: int| 0 <= i < steps.len() && drills_pins(#[trigger] steps[i]) && steps[i].machines_back implies all.contains(
        back_face_fault(i, steps[i].name@),
    ) by {
        let j = choose|j: int| 0 <= j < head.len() && head[j] == back_face_fault(i, steps[i].name@);
        assert(all[j] == head[j]);
    }
    assert forall|b: int| #[trigger] unregistered_turn(steps, b) implies all.contains(face_change_fault(0, b)) by {
        assert(all[head.len() as int] == face_change_fault(0, b));
    }
    assert forall|f: Seq<char>| #[trigger] all.contains(f) implies is_pin_step_fault(steps, n, f) || exists|b: int|
        unregistered_turn(steps, b) && f == face_change_fault(0, b) by {
        let j = choose|j: int| 0 <= j < all.len() && all[j] == f;
        if j < head.len() {
            assert(head.contains(f));
        } else {
            match first_face_change_spec(steps) {
                Some((a, b)) => {
                    assert(a == 0);
                    assert(unregistered_turn(steps, b));
                },
                None => {},
            }
        }
    }
}

} // verus!
