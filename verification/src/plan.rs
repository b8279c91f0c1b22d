//! The tooling plan as the Job screen shows it: one entry per machining step, each
//! either empty, resolved (its rack and the tool resolving each requirement) or
//! failed with the lines to show, plus the rack schedule across the job.

use vstd::prelude::*;

use crate::model::{find_tool, find_tool_index, lemma_find_tool, StockTool, ToolsetProfile};
use crate::rack::{build_rack_schedule, fixed_ids, ids_view, row_view, rows_spec, schedule, spare_keys, steps_view, RackSchedule, RackSlotSchedule};
use crate::holes::DemandKind;
use crate::steps::{join, missing_bindings, missing_bindings_spec, StepRaw};
use crate::text::{decimal, push_char, push_decimal, text_equal, texts};

verus! {

// ---------------------------------------------------------------------------
// The plan's shape
// ---------------------------------------------------------------------------

/// The full tooling plan: one entry per machining step, in order.
pub struct ToolingPlan {
    pub steps: Vec<StepPlan>,
    /// A top-level note when there is nothing to plan (no profile, no board).
    pub note: Option<String>,
    /// The rack across all resolved steps; `None` when no step loads tools.
    pub rack_schedule: Option<RackSchedule>,
}

pub struct StepPlan {
    pub name: String,
    pub outcome: StepOutcome,
}

pub enum StepOutcome {
    /// Nothing to machine in this step.
    Empty,
    /// The rack and the per-requirement resolution.
    Resolved(StepResolved),
    /// No solution: the diagnostic lines to show.
    Failed(Vec<String>),
}

pub struct StepResolved {
    /// One line of context, e.g. "9 tool(s) · manual tool changes (no ATC)".
    pub summary: String,
    pub rack: Vec<RackRow>,
    pub requirements: Vec<RequirementRow>,
    pub warnings: Vec<String>,
    /// Distinct tool ids the step loads, in slot order.
    pub tool_ids: Vec<String>,
}

pub struct RackRow {
    /// Slot label, e.g. `T1`.
    pub slot: String,
    pub tool: String,
}

pub struct RequirementRow {
    pub label: String,
    pub count: usize,
    /// The tool(s) resolving this requirement: an oblong may take a drill and a router.
    pub tools: Vec<ResolvedTool>,
}

/// One tool resolving (part of) a requirement, for the plan table.
pub struct ResolvedTool {
    /// Slot label, e.g. `T3`, or `—` when unresolved.
    pub slot: String,
    /// The role when a requirement uses several tools ("drill", "route").
    pub role: Option<&'static str>,
    /// The tool's diameter as shown, or `—`.
    pub diameter: String,
    /// Size delta: `+3.2%`, `exact` (routed to size), or `—`.
    pub delta_text: String,
    /// The style class colouring the delta.
    pub delta_class: &'static str,
    /// Milled by a router rather than drilled.
    pub routed: bool,
}

/// The row for a requirement that no tool resolves.
pub fn unresolved_tool() -> (r: ResolvedTool)
    ensures
        r.slot@ == "—"@,
        r.role is None,
        r.diameter@ == "—"@,
        r.delta_text@ == "—"@,
        r.delta_class@ == ""@,
        !r.routed,
{
    ResolvedTool {
        slot: "—".to_string(),
        role: None,
        diameter: "—".to_string(),
        delta_text: "—".to_string(),
        delta_class: "",
        routed: false,
    }
}

// ---------------------------------------------------------------------------
// Routers in the plan table
// ---------------------------------------------------------------------------

/// The slot number of a tool in a step's rack, given as `(tool id, slot)` pairs in
/// slot order: the last pair naming the tool, as when the pairs are collected into a
/// map keyed by tool id.
pub open spec fn slot_of(rack: Seq<(String, u8)>, id: Seq<char>) -> Option<u8>
    decreases rack.len(),
{
    if rack.len() == 0 {
        None
    } else if rack.last().0@ == id {
        Some(rack.last().1)
    } else {
        slot_of(rack.drop_last(), id)
    }
}

/// `T<n>` for a slot number, `—` for none.
pub open spec fn slot_text(slot: Option<u8>) -> Seq<char> {
    match slot {
        Some(n) => seq!['T'] + decimal(n as nat),
        None => "—"@,
    }
}

/// The slot a tool occupies in the step's rack.
pub fn slot_number(rack: &Vec<(String, u8)>, id: &str) -> (r: Option<u8>)
    ensures
        r == slot_of(rack@, id@),
{
    let mut i: usize = rack.len();
    assert(rack@.take(i as int) =~= rack@);
    while i > 0
        invariant
            i <= rack@.len(),
            slot_of(rack@, id@) == slot_of(rack@.take(i as int), id@),
        decreases i,
    {
        assert(rack@.take(i as int).drop_last() =~= rack@.take(i - 1));
        if text_equal(rack[i - 1].0.as_str(), id) {
            return Some(rack[i - 1].1);
        }
        i -= 1;
    }
    None
}

fn slot_string(slot: Option<u8>) -> (s: String)
    ensures
        s@ == slot_text(slot),
{
    match slot {
        Some(n) => {
            let mut s = String::new();
            push_char(&mut s, 'T');
            push_decimal(&mut s, n as u64);
            assert(s@ =~= seq!['T'] + decimal(n as nat));
            s
        },
        None => "—".to_string(),
    }
}

/// A router resolving a routed slot or the outline. It mills to the exact size, so
/// there is no size delta: the diameter shown is the router's own (`—` when the
/// stock has no tool of that id).
pub fn resolve_router_tool(
    tools: &Vec<StockTool>,
    router_id: &str,
    number_of: &Vec<(String, u8)>,
    role: Option<&'static str>,
) -> (r: ResolvedTool)
    ensures
        r.slot@ == slot_text(slot_of(number_of@, router_id@)),
        r.role == role,
        r.diameter@ == match find_tool(tools@, router_id@) {
            Some(i) => tools@[i].diameter_text@,
            None => "—"@,
        },
        r.delta_text@ == "exact"@,
        r.delta_class@ == "tooling-delta-ok"@,
        r.routed,
{
    proof {
        lemma_find_tool(tools@, router_id@);
    }
    let slot = slot_string(slot_number(number_of, router_id));
    let diameter = match find_tool_index(tools, router_id) {
        Some(i) => tools[i].diameter_text.clone(),
        None => "—".to_string(),
    };
    ResolvedTool {
        slot,
        role,
        diameter,
        delta_text: "exact".to_string(),
        delta_class: "tooling-delta-ok",
        routed: true,
    }
}

// ---------------------------------------------------------------------------
// Why a drill cannot reach
// ---------------------------------------------------------------------------

/// The figures behind a depth-infeasible drill, each as the operator reads it: the
/// lengths in millimetres to two places, the point angle in whole degrees.
#[derive(Clone, Debug)]
pub struct DepthDetail {
    pub diameter: String,
    pub point_angle: String,
    /// How far below the board the drill's point breaks through.
    pub breakthrough: String,
    /// The space available below the board.
    pub bed_space: String,
    /// The flute length, when the tool records one.
    pub flute: Option<String>,
    /// The plunge needed to break through.
    pub needed_plunge: String,
    /// The bed-safety half held; when false, the point would reach the bed.
    pub bed_ok: bool,
}

/// The reason given for a depth-infeasible drill: which half of depth feasibility
/// failed, in figures, and what to change.
pub open spec fn depth_reason_spec(d: DepthDetail) -> Seq<char> {
    if !d.bed_ok {
        "would reach the machine bed — a ⌀"@ + d.diameter@ + "mm "@ + d.point_angle@ + "° drill breaks through "@
            + d.breakthrough@ + "mm below the board but only "@ + d.bed_space@
            + "mm of below-board space is available (raise the backboard thickness, lower the bed clearance, or route it)"@
    } else {
        "the drill is too short — a ⌀"@ + d.diameter@ + "mm bit needs "@ + d.needed_plunge@
            + "mm of reach to break through but its flute is only "@ + match d.flute {
            Some(f) => f@ + "mm"@,
            None => "unset"@,
        } + " (use a longer bit or route it)"@
    }
}

/// A specific, numeric reason for a depth-infeasible drill, naming which half of
/// depth feasibility failed: the bed (the point would break through into it) or the
/// reach (the flute is too short).
pub fn depth_reason(d: &DepthDetail) -> (s: String)
    ensures
        s@ == depth_reason_spec(*d),
{
    let mut s = String::new();
    if !d.bed_ok {
        s.append("would reach the machine bed — a ⌀");
        s.append(d.diameter.as_str());
        s.append("mm ");
        s.append(d.point_angle.as_str());
        s.append("° drill breaks through ");
        s.append(d.breakthrough.as_str());
        s.append("mm below the board but only ");
        s.append(d.bed_space.as_str());
        s.append(
            "mm of below-board space is available (raise the backboard thickness, lower the bed clearance, or route it)",
        );
    } else {
        s.append("the drill is too short — a ⌀");
        s.append(d.diameter.as_str());
        s.append("mm bit needs ");
        s.append(d.needed_plunge.as_str());
        s.append("mm of reach to break through but its flute is only ");
        match &d.flute {
            Some(f) => {
                s.append(f.as_str());
                s.append("mm");
            },
            None => {
                s.append("unset");
            },
        }
        s.append(" (use a longer bit or route it)");
    }
    s
}

// ---------------------------------------------------------------------------
// Why a step has no tool assignment
// ---------------------------------------------------------------------------

/// Why no tool can make a group of holes.
#[derive(Clone, Copy, Debug, PartialEq, Eq, Structural)]
pub enum FaultReason {
    /// No in-stock drill is within the allowance, and routing is not allowed.
    NoSizeMatch,
    /// A drill matches but cannot reach through, or would reach the bed.
    DepthInfeasible,
}

/// A group of holes the tool assignment cannot cover.
#[derive(Clone, Debug)]
pub struct HoleFault {
    pub kind: DemandKind,
    pub reason: FaultReason,
    /// The figures behind a depth fault, when known.
    pub depth: Option<DepthDetail>,
    /// The nearest stock tools, as shown.
    pub nearest: Vec<String>,
    pub target_um: i64,
}

/// Why the tool assignment of a step failed.
#[derive(Clone, Debug)]
pub enum AssignError {
    UncoverableHoles(Vec<HoleFault>),
    RackTooSmall { minimal: usize, capacity: usize },
}

/// The name of a requirement kind in an error line.
pub open spec fn fault_kind_text(kind: DemandKind) -> Seq<char> {
    match kind {
        DemandKind::Pth => "PTH"@,
        DemandKind::Npth => "NPTH"@,
        DemandKind::Locating => "Locating"@,
        DemandKind::CornerRelief => "Corner-relief"@,
    }
}

/// The line for one uncoverable group, its size given as the operator reads it.
pub open spec fn fault_line(f: HoleFault, size_text: Seq<char>) -> Seq<char> {
    let reason = match f.reason {
        FaultReason::NoSizeMatch => "no in-stock drill matches within the allowance and routing is unavailable"@,
        FaultReason::DepthInfeasible => match f.depth {
            Some(d) => depth_reason_spec(d),
            None => "the matching drill is too short to reach through, or would hit the bed"@,
        },
    };
    let nearest = if f.nearest@.len() == 0 {
        ""@
    } else {
        " — nearest stock: "@ + join(texts(f.nearest@), ", "@)
    };
    fault_kind_text(f.kind) + " hole ⌀"@ + size_text + ": "@ + reason + nearest
}

/// The line for a rack that cannot hold the step's tools.
pub open spec fn rack_too_small_line(minimal: usize, capacity: usize) -> Seq<char> {
    "Rack too small: this step needs "@ + decimal(minimal as nat) + " tools but the toolset provides "@ + decimal(
        capacity as nat,
    )
        + " usable slot(s). Add slots, enable routing fallback, widen the size allowances, or drop optional operations."@
}

fn push_joined(s: &mut String, parts: &Vec<String>, sep: &str)
    ensures
        final(s)@ == old(s)@ + join(texts(parts@), sep@),
{
    let ghost start = s@;
    let ghost all = texts(parts@);
    let mut i: usize = 0;
    while i < parts.len()
        invariant
            i <= parts@.len(),
            all == texts(parts@),
            s@ == start + join(all.take(i as int), sep@),
        decreases parts@.len() - i,
    {
        assert(all.take(i + 1).drop_last() =~= all.take(i as int));
        assert(all.take(i + 1).last() == parts@[i as int]@);
        if i > 0 {
            s.append(sep);
        }
        s.append(parts[i].as_str());
        proof {
            if i == 0 {
                assert(all.take(1).len() == 1);
                assert(join(all.take(0), sep@) =~= Seq::<char>::empty());
                assert(s@ =~= start + join(all.take(1), sep@));
            } else {
                assert(s@ =~= start + join(all.take(i + 1), sep@));
            }
        }
        i += 1;
    }
    assert(all.take(i as int) =~= all);
    if parts.len() == 0 {
        assert(s@ =~= start + join(all, sep@));
    }
}

fn fault_text(f: &HoleFault, size_text: &String) -> (s: String)
    ensures
        s@ == fault_line(*f, size_text@),
{
    let mut s = String::new();
    match f.kind {
        DemandKind::Pth => s.append("PTH"),
        DemandKind::Npth => s.append("NPTH"),
        DemandKind::Locating => s.append("Locating"),
        DemandKind::CornerRelief => s.append("Corner-relief"),
    }
    s.append(" hole ⌀");
    s.append(size_text.as_str());
    s.append(": ");
    match f.reason {
        FaultReason::NoSizeMatch => {
            s.append("no in-stock drill matches within the allowance and routing is unavailable");
        },
        FaultReason::DepthInfeasible => match &f.depth {
            Some(d) => {
                let r = depth_reason(d);
                s.append(r.as_str());
            },
            None => {
                s.append("the matching drill is too short to reach through, or would hit the bed");
            },
        },
    }
    if f.nearest.len() > 0 {
        s.append(" — nearest stock: ");
        push_joined(&mut s, &f.nearest, ", ");
    } else {
        proof {
            reveal_strlit("");
        }
    }
    s
}

/// The lines to show for a failed tool assignment: one per uncoverable group of holes
/// (`size_texts[k]` is group `k`'s size as the operator reads it), or the one line of a
/// rack too small for the step.
pub fn format_error(error: &AssignError, size_texts: &Vec<String>) -> (r: Vec<String>)
    requires
        error matches AssignError::UncoverableHoles(faults) ==> size_texts@.len() == faults@.len(),
    ensures
        match error {
            AssignError::UncoverableHoles(faults) => texts(r@) == Seq::new(
                faults@.len(),
                |k: int| fault_line(faults@[k], size_texts@[k]@),
            ),
            AssignError::RackTooSmall { minimal, capacity } => texts(r@) == seq![
                rack_too_small_line(*minimal, *capacity),
            ],
        },
{
    match error {
        AssignError::UncoverableHoles(faults) => {
            let mut r: Vec<String> = Vec::new();
            let mut k: usize = 0;
            while k < faults.len()
                invariant
                    k <= faults@.len(),
                    size_texts@.len() == faults@.len(),
                    texts(r@) == Seq::new(k as nat, |j: int| fault_line(faults@[j], size_texts@[j]@)),
                decreases faults@.len() - k,
            {
                let line = fault_text(&faults[k], &size_texts[k]);
                assert(line@ == fault_line(faults@[k as int], size_texts@[k as int]@));
                let ghost prev = r@;
                r.push(line);
                assert(texts(r@) =~= texts(prev).push(line@));
                k += 1;
                assert(texts(r@) =~= Seq::new(k as nat, |j: int| fault_line(faults@[j], size_texts@[j]@)));
            }
            r
        },
        AssignError::RackTooSmall { minimal, capacity } => {
            let mut s = String::new();
            s.append("Rack too small: this step needs ");
            push_decimal(&mut s, *minimal as u64);
            s.append(" tools but the toolset provides ");
            push_decimal(&mut s, *capacity as u64);
            s.append(
                " usable slot(s). Add slots, enable routing fallback, widen the size allowances, or drop optional operations.",
            );
            let r = vec![s];
            assert(texts(r@) =~= seq![rack_too_small_line(*minimal, *capacity)]);
            r
        },
    }
}

// ---------------------------------------------------------------------------
// Steps and their bindings
// ---------------------------------------------------------------------------

/// A CNC machine profile, as far as the plan needs it.
#[derive(Clone, Debug)]
pub struct CncMachine {
    pub id: String,
    pub name: String,
    /// Slots of the automatic tool changer; 0 for manual tool changes.
    pub atc_slot_count: u32,
}

/// One machining step as the Job chrome needs it.
#[derive(Clone, Debug)]
pub struct StepHeader {
    pub index: usize,
    pub name: String,
    pub cnc_name: String,
    /// Whether this step's CNC changes tools automatically.
    pub is_atc: bool,
}

/// The first machine with id `id`.
pub open spec fn machine_with_id(machines: Seq<CncMachine>, id: Seq<char>) -> Option<int>
    decreases machines.len(),
{
    if machines.len() == 0 {
        None
    } else if machines[0].id@ == id {
        Some(0)
    } else {
        match machine_with_id(machines.drop_first(), id) {
            Some(i) => Some(i + 1),
            None => None,
        }
    }
}

/// The first toolset with id `id`.
pub open spec fn toolset_with_id(toolsets: Seq<ToolsetProfile>, id: Seq<char>) -> Option<int>
    decreases toolsets.len(),
{
    if toolsets.len() == 0 {
        None
    } else if toolsets[0].id@ == id {
        Some(0)
    } else {
        match toolset_with_id(toolsets.drop_first(), id) {
            Some(i) => Some(i + 1),
            None => None,
        }
    }
}

/// The machine a step is bound to, if it can be found.
pub open spec fn step_machine(step: StepRaw, machines: Seq<CncMachine>) -> Option<int> {
    match step.cnc_id {
        Some(id) => machine_with_id(machines, id@),
        None => None,
    }
}

/// The toolset a step is bound to, if it can be found.
pub open spec fn step_toolset(step: StepRaw, toolsets: Seq<ToolsetProfile>) -> Option<int> {
    match step.toolset_id {
        Some(id) => toolset_with_id(toolsets, id@),
        None => None,
    }
}

proof fn lemma_machine_with_id(machines: Seq<CncMachine>, id: Seq<char>)
    ensures
        machine_with_id(machines, id) matches Some(i) ==> 0 <= i < machines.len() && machines[i].id@ == id
            && forall|j: int| 0 <= j < i ==> machines[j].id@ != id,
        machine_with_id(machines, id) is None ==> forall|j: int| 0 <= j < machines.len() ==> machines[j].id@ != id,
    decreases machines.len(),
{
    if machines.len() > 0 {
        lemma_machine_with_id(machines.drop_first(), id);
        assert forall|j: int| 1 <= j < machines.len() implies machines[j] == machines.drop_first()[j - 1] by {}
    }
}

proof fn lemma_machine_with_id_first(machines: Seq<CncMachine>, id: Seq<char>, i: int)
    requires
        0 <= i < machines.len(),
        machines[i].id@ == id,
        forall|j: int| 0 <= j < i ==> machines[j].id@ != id,
    ensures
        machine_with_id(machines, id) == Some(i),
    decreases i,
{
    if i > 0 {
        assert(machines.drop_first()[i - 1] == machines[i]);
        assert forall|j: int| 0 <= j < i - 1 implies machines.drop_first()[j].id@ != id by {
            assert(machines.drop_first()[j] == machines[j + 1]);
        }
        lemma_machine_with_id_first(machines.drop_first(), id, i - 1);
    }
}

proof fn lemma_toolset_with_id(toolsets: Seq<ToolsetProfile>, id: Seq<char>)
    ensures
        toolset_with_id(toolsets, id) matches Some(i) ==> 0 <= i < toolsets.len() && toolsets[i].id@ == id
            && forall|j: int| 0 <= j < i ==> toolsets[j].id@ != id,
        toolset_with_id(toolsets, id) is None ==> forall|j: int| 0 <= j < toolsets.len() ==> toolsets[j].id@ != id,
    decreases toolsets.len(),
{
    if toolsets.len() > 0 {
        lemma_toolset_with_id(toolsets.drop_first(), id);
        assert forall|j: int| 1 <= j < toolsets.len() implies toolsets[j] == toolsets.drop_first()[j - 1] by {}
    }
}

proof fn lemma_toolset_with_id_first(toolsets: Seq<ToolsetProfile>, id: Seq<char>, i: int)
    requires
        0 <= i < toolsets.len(),
        toolsets[i].id@ == id,
        forall|j: int| 0 <= j < i ==> toolsets[j].id@ != id,
    ensures
        toolset_with_id(toolsets, id) == Some(i),
    decreases i,
{
    if i > 0 {
        assert(toolsets.drop_first()[i - 1] == toolsets[i]);
        assert forall|j: int| 0 <= j < i - 1 implies toolsets.drop_first()[j].id@ != id by {
            assert(toolsets.drop_first()[j] == toolsets[j + 1]);
        }
        lemma_toolset_with_id_first(toolsets.drop_first(), id, i - 1);
    }
}

fn machine_index(machines: &Vec<CncMachine>, id: &str) -> (r: Option<usize>)
    ensures
        r is None <==> machine_with_id(machines@, id@) is None,
        r matches Some(i) ==> machine_with_id(machines@, id@) == Some(i as int) && i < machines@.len(),
{
    proof {
        lemma_machine_with_id(machines@, id@);
    }
    let mut i: usize = 0;
    while i < machines.len()
        invariant
            i <= machines@.len(),
            forall|j: int| 0 <= j < i ==> machines@[j].id@ != id@,
        decreases machines@.len() - i,
    {
        if text_equal(machines[i].id.as_str(), id) {
            proof {
                lemma_machine_with_id_first(machines@, id@, i as int);
            }
            return Some(i);
        }
        i += 1;
    }
    None
}

fn toolset_index(toolsets: &Vec<ToolsetProfile>, id: &str) -> (r: Option<usize>)
    ensures
        r is None <==> toolset_with_id(toolsets@, id@) is None,
        r matches Some(i) ==> toolset_with_id(toolsets@, id@) == Some(i as int) && i < toolsets@.len(),
{
    proof {
        lemma_toolset_with_id(toolsets@, id@);
    }
    let mut i: usize = 0;
    while i < toolsets.len()
        invariant
            i <= toolsets@.len(),
            forall|j: int| 0 <= j < i ==> toolsets@[j].id@ != id@,
        decreases toolsets@.len() - i,
    {
        if text_equal(toolsets[i].id.as_str(), id) {
            proof {
                lemma_toolset_with_id_first(toolsets@, id@, i as int);
            }
            return Some(i);
        }
        i += 1;
    }
    None
}

fn find_machine(machines: &Vec<CncMachine>, step: &StepRaw) -> (r: Option<usize>)
    ensures
        r is None <==> step_machine(*step, machines@) is None,
        r matches Some(i) ==> step_machine(*step, machines@) == Some(i as int) && i < machines@.len(),
{
    match &step.cnc_id {
        None => None,
        Some(t) => machine_index(machines, t.as_str()),
    }
}

fn find_toolset(toolsets: &Vec<ToolsetProfile>, step: &StepRaw) -> (r: Option<usize>)
    ensures
        r is None <==> step_toolset(*step, toolsets@) is None,
        r matches Some(i) ==> step_toolset(*step, toolsets@) == Some(i as int) && i < toolsets@.len(),
{
    match &step.toolset_id {
        None => None,
        Some(t) => toolset_index(toolsets, t.as_str()),
    }
}

/// The header of each step: its index and name, its CNC's name (empty when the
/// machine cannot be found) and whether that machine has an automatic tool changer.
pub fn step_headers(steps: &Vec<StepRaw>, machines: &Vec<CncMachine>) -> (r: Vec<StepHeader>)
    ensures
        r@.len() == steps@.len(),
        forall|k: int|
            0 <= k < steps@.len() ==> {
                let h = #[trigger] r@[k];
                &&& h.index == k
                &&& h.name@ == steps@[k].name@
                &&& h.cnc_name@ == match step_machine(steps@[k], machines@) {
                    Some(m) => machines@[m].name@,
                    None => ""@,
                }
                &&& h.is_atc == match step_machine(steps@[k], machines@) {
                    Some(m) => machines@[m].atc_slot_count > 0,
                    None => false,
                }
            },
{
    let mut r: Vec<StepHeader> = Vec::new();
    let mut k: usize = 0;
    while k < steps.len()
        invariant
            k <= steps@.len(),
            r@.len() == k,
            forall|j: int|
                0 <= j < k ==> {
                    let h = #[trigger] r@[j];
                    &&& h.index == j
                    &&& h.name@ == steps@[j].name@
                    &&& h.cnc_name@ == match step_machine(steps@[j], machines@) {
                        Some(m) => machines@[m].name@,
                        None => ""@,
                    }
                    &&& h.is_atc == match step_machine(steps@[j], machines@) {
                        Some(m) => machines@[m].atc_slot_count > 0,
                        None => false,
                    }
                },
        decreases steps@.len() - k,
    {
        let step = &steps[k];
        let (cnc_name, is_atc) = match find_machine(machines, step) {
            Some(m) => (machines[m].name.clone(), machines[m].atc_slot_count > 0),
            None => (String::new(), false),
        };
        proof {
            reveal_strlit("");
        }
        r.push(StepHeader { index: k, name: step.name.clone(), cnc_name, is_atc });
        k += 1;
    }
    r
}

/// The toolset and CNC a step runs with, as indices into `toolsets` and `machines`,
/// or the line that says why the step cannot be planned: a missing binding first,
/// then a toolset that cannot be found, then a CNC that cannot be found.
pub fn step_bindings(raw: &StepRaw, toolsets: &Vec<ToolsetProfile>, machines: &Vec<CncMachine>) -> (r: Result<
    (usize, usize),
    String,
>)
    ensures
        match missing_bindings_spec(*raw) {
            Some(reason) => r matches Err(e) && e@ == reason,
            None => match step_toolset(*raw, toolsets@) {
                None => r matches Err(e) && e@ == "The step's toolset profile could not be found."@,
                Some(t) => match step_machine(*raw, machines@) {
                    None => r matches Err(e) && e@ == "The step's CNC profile could not be found."@,
                    Some(m) => r matches Ok(p) && p.0 == t && p.1 == m && t < toolsets@.len() && m < machines@.len(),
                },
            },
        },
{
    if let Some(reason) = missing_bindings(raw) {
        return Err(reason);
    }
    let t = match find_toolset(toolsets, raw) {
        Some(t) => t,
        None => {
            return Err("The step's toolset profile could not be found.".to_string());
        },
    };
    let m = match find_machine(machines, raw) {
        Some(m) => m,
        None => {
            return Err("The step's CNC profile could not be found.".to_string());
        },
    };
    Ok((t, m))
}

// ---------------------------------------------------------------------------
// The plan across steps
// ---------------------------------------------------------------------------

/// The note shown instead of a plan, checked in this order: no machining profile
/// selected, no board loaded, the configuration store not ready, a profile without
/// steps. `None` when there is something to plan.
pub open spec fn plan_note(profile_selected: bool, board_loaded: bool, store_ready: bool, step_count: nat) -> Option<
    Seq<char>,
> {
    if !profile_selected {
        Some("Select a machining profile to plan tooling."@)
    } else if !board_loaded {
        Some("No board loaded — nothing to machine."@)
    } else if !store_ready {
        Some("Configuration store is not ready."@)
    } else if step_count == 0 {
        Some("The machining profile has no steps."@)
    } else {
        None
    }
}

/// The tools a step loads, when it resolved to at least one.
pub open spec fn loaded_ids(o: StepOutcome) -> Option<Seq<Seq<char>>> {
    match o {
        StepOutcome::Resolved(r) => if r.tool_ids@.len() > 0 { Some(ids_view(r.tool_ids@)) } else { None },
        _ => None,
    }
}

/// The steps that take part in the rack schedule, by index, in order.
pub open spec fn scheduled_steps(outcomes: Seq<StepOutcome>) -> Seq<int>
    decreases outcomes.len(),
{
    if outcomes.len() == 0 {
        seq![]
    } else {
        let rest = scheduled_steps(outcomes.drop_last());
        if loaded_ids(outcomes.last()) is Some { rest.push(outcomes.len() - 1) } else { rest }
    }
}

/// The tools of each scheduled step, in order.
pub open spec fn scheduled_tools(outcomes: Seq<StepOutcome>) -> Seq<Seq<Seq<char>>>
    decreases outcomes.len(),
{
    if outcomes.len() == 0 {
        seq![]
    } else {
        let rest = scheduled_tools(outcomes.drop_last());
        match loaded_ids(outcomes.last()) {
            Some(ids) => rest.push(ids),
            None => rest,
        }
    }
}

/// The toolset that lays out the job's rack: that of the first scheduled step whose
/// toolset can be found.
pub open spec fn schedule_toolset(steps: Seq<StepRaw>, outcomes: Seq<StepOutcome>, toolsets: Seq<ToolsetProfile>) -> Option<
    int,
>
    decreases outcomes.len(),
{
    if outcomes.len() == 0 {
        None
    } else {
        let earlier = schedule_toolset(steps, outcomes.drop_last(), toolsets);
        if earlier is Some {
            earlier
        } else if loaded_ids(outcomes.last()) is Some {
            step_toolset(steps[outcomes.len() - 1], toolsets)
        } else {
            None
        }
    }
}

/// Whether `s` is the rack schedule of toolset `ts` over the scheduled steps `idx`
/// loading `loads`.
pub open spec fn schedule_is(
    s: RackSchedule,
    tools: Seq<StockTool>,
    ts: ToolsetProfile,
    idx: Seq<int>,
    loads: Seq<Seq<Seq<char>>>,
) -> bool {
    &&& s.steps@.len() == idx.len()
    &&& forall|i: int| 0 <= i < idx.len() ==> (#[trigger] s.steps@[i]).step_index == idx[i]
    &&& s.slots@.map_values(|row: RackSlotSchedule| row_view(row)) == rows_spec(
        tools,
        ts.slots@,
        schedule(spare_keys(ts.slots@), fixed_ids(ts.slots@).to_set(), loads),
    )
}

proof fn lemma_schedule_toolset(steps: Seq<StepRaw>, outcomes: Seq<StepOutcome>, toolsets: Seq<ToolsetProfile>)
    ensures
        schedule_toolset(steps, outcomes, toolsets) is Some ==> scheduled_steps(outcomes).len() > 0,
        scheduled_steps(outcomes).len() == scheduled_tools(outcomes).len(),
    decreases outcomes.len(),
{
    if outcomes.len() > 0 {
        lemma_schedule_toolset(steps, outcomes.drop_last(), toolsets);
    }
}

fn copy_ids(v: &Vec<String>) -> (r: Vec<String>)
    ensures
        ids_view(r@) == ids_view(v@),
{
    let mut r: Vec<String> = Vec::new();
    let mut i: usize = 0;
    while i < v.len()
        invariant
            i <= v@.len(),
            ids_view(r@) == ids_view(v@.take(i as int)),
        decreases v@.len() - i,
    {
        let c = v[i].clone();
        let ghost before = r@;
        r.push(c);
        assert(ids_view(r@) =~= ids_view(before).push(c@));
        assert(ids_view(v@.take(i + 1)) =~= ids_view(v@.take(i as int)).push(v@[i as int]@));
        i += 1;
    }
    assert(v@.take(i as int) =~= v@);
    r
}

/// Assembles the tooling plan from each step's outcome (`outcomes[k]` belongs to
/// `steps[k]`). Without a selected profile, a board, a ready store or any step there
/// is only a note. Otherwise every step keeps its name and outcome, and the steps that
/// resolved to tools are scheduled into one rack, laid out by the toolset of the
/// first of them whose toolset can be found.
pub fn plan_tooling(
    profile_selected: bool,
    board_loaded: bool,
    store_ready: bool,
    steps: &Vec<StepRaw>,
    outcomes: Vec<StepOutcome>,
    tools: &Vec<StockTool>,
    toolsets: &Vec<ToolsetProfile>,
) -> (r: ToolingPlan)
    requires
        outcomes@.len() == steps@.len(),
        forall|t: int| 0 <= t < toolsets@.len() ==> (#[trigger] toolsets@[t]).wf(),
    ensures
        match plan_note(profile_selected, board_loaded, store_ready, steps@.len()) {
            Some(note) => r.steps@.len() == 0 && (r.note matches Some(n) && n@ == note) && r.rack_schedule is None,
            None => {
                &&& r.note is None
                &&& r.steps@.len() == steps@.len()
                &&& forall|k: int|
                    0 <= k < steps@.len() ==> (#[trigger] r.steps@[k]).name@ == steps@[k].name@ && r.steps@[k].outcome
                        == outcomes@[k]
                &&& match schedule_toolset(steps@, outcomes@, toolsets@) {
                    None => r.rack_schedule is None,
                    Some(t) => r.rack_schedule matches Some(s) && schedule_is(
                        s,
                        tools@,
                        toolsets@[t],
                        scheduled_steps(outcomes@),
                        scheduled_tools(outcomes@),
                    ),
                }
            },
        },
{
    if !profile_selected {
        return ToolingPlan {
            steps: Vec::new(),
            note: Some("Select a machining profile to plan tooling.".to_string()),
            rack_schedule: None,
        };
    }
    if !board_loaded {
        return ToolingPlan {
            steps: Vec::new(),
            note: Some("No board loaded — nothing to machine.".to_string()),
            rack_schedule: None,
        };
    }
    if !store_ready {
        return ToolingPlan {
            steps: Vec::new(),
            note: Some("Configuration store is not ready.".to_string()),
            rack_schedule: None,
        };
    }
    if steps.len() == 0 {
        return ToolingPlan {
            steps: Vec::new(),
            note: Some("The machining profile has no steps.".to_string()),
            rack_schedule: None,
        };
    }
    let mut input: Vec<(usize, String, Vec<String>)> = Vec::new();
    let mut toolset: Option<usize> = None;
    let mut plans: Vec<StepPlan> = Vec::new();
    let mut rest = outcomes;
    let mut k: usize = 0;
    while k < steps.len()
        invariant
            outcomes@.len() == steps@.len(),
            k <= steps@.len(),
            rest@ == outcomes@.skip(k as int),
            plans@.len() == k,
            forall|j: int|
                0 <= j < k ==> (#[trigger] plans@[j]).name@ == steps@[j].name@ && plans@[j].outcome == outcomes@[j],
            input@.len() == scheduled_steps(outcomes@.take(k as int)).len(),
            forall|i: int|
                0 <= i < input@.len() ==> (#[trigger] input@[i]).0 as int == scheduled_steps(outcomes@.take(k as int))[i],
            steps_view(input@) == scheduled_tools(outcomes@.take(k as int)),
            match toolset {
                Some(t) => schedule_toolset(steps@, outcomes@.take(k as int), toolsets@) == Some(t as int) && t
                    < toolsets@.len(),
                None => schedule_toolset(steps@, outcomes@.take(k as int), toolsets@) is None,
            },
        decreases steps@.len() - k,
    {
        assert(outcomes@.take(k + 1).drop_last() =~= outcomes@.take(k as int));
        assert(outcomes@.take(k + 1).last() == outcomes@[k as int]);
        assert(rest@[0] == outcomes@[k as int]);
        let outcome = rest.remove(0);
        assert(rest@ =~= outcomes@.skip(k + 1));
        proof {
            lemma_schedule_toolset(steps@, outcomes@.take(k as int), toolsets@);
        }
        if let StepOutcome::Resolved(resolved) = &outcome {
            if resolved.tool_ids.len() > 0 {
                let ids = copy_ids(&resolved.tool_ids);
                let ghost before = input@;
                input.push((k, steps[k].name.clone(), ids));
                assert(steps_view(input@) =~= steps_view(before).push(ids_view(resolved.tool_ids@)));
                if toolset.is_none() {
                    toolset = find_toolset(toolsets, &steps[k]);
                }
            }
        }
        plans.push(StepPlan { name: steps[k].name.clone(), outcome });
        k += 1;
    }
    assert(outcomes@.take(k as int) =~= outcomes@);
    proof {
        lemma_schedule_toolset(steps@, outcomes@, toolsets@);
    }
    let rack_schedule = match toolset {
        Some(t) => if input.len() > 0 {
            let s = build_rack_schedule(tools, &toolsets[t], input.as_slice());
            assert(input@.len() == scheduled_steps(outcomes@).len());
            Some(s)
        } else {
            None
        },
        None => None,
    };
    ToolingPlan { steps: plans, note: None, rack_schedule }
}

/// The rack schedule's columns are exactly the steps that resolved to at least one
/// tool, in step order, each once.
pub proof fn lemma_schedule_columns_are_the_loading_steps(outcomes: Seq<StepOutcome>)
    ensures
        forall|i: int, j: int|
            0 <= i < j < scheduled_steps(outcomes).len() ==> #[trigger] scheduled_steps(outcomes)[i]
                < #[trigger] scheduled_steps(outcomes)[j],
        forall|i: int|
            0 <= i < scheduled_steps(outcomes).len() ==> 0 <= #[trigger] scheduled_steps(outcomes)[i] < outcomes.len()
                && loaded_ids(outcomes[scheduled_steps(outcomes)[i]]) is Some,
        forall|k: int| 0 <= k < outcomes.len() && (#[trigger] loaded_ids(outcomes[k])) is Some ==> scheduled_steps(
            outcomes,
        ).contains(k),
    decreases outcomes.len(),
{
    if outcomes.len() > 0 {
        let rest = outcomes.drop_last();
        lemma_schedule_columns_are_the_loading_steps(rest);
        let prev = scheduled_steps(rest);
        let cur = scheduled_steps(outcomes);
        assert forall|i: int| 0 <= i < prev.len() implies prev[i] < outcomes.len() - 1 && outcomes[prev[i]] == rest[prev[i]] by {}
        assert forall|i: int|
            0 <= i < cur.len() implies 0 <= #[trigger] cur[i] < outcomes.len() && loaded_ids(outcomes[cur[i]]) is Some by {
            if i < prev.len() {
                assert(cur[i] == prev[i]);
            }
        }
        assert forall|i: int, j: int| 0 <= i < j < cur.len() implies #[trigger] cur[i] < #[trigger] cur[j] by {
            if j < prev.len() {
                assert(cur[i] == prev[i] && cur[j] == prev[j]);
            } else {
                assert(cur[i] == prev[i]);
            }
        }
        assert forall|k: int| 0 <= k < outcomes.len() && (#[trigger] loaded_ids(outcomes[k])) is Some implies cur.contains(
            k,
        ) by {
            if k < outcomes.len() - 1 {
                assert(outcomes[k] == rest[k]);
                assert(prev.contains(k));
                let m = choose|m: int| 0 <= m < prev.len() && prev[m] == k;
                assert(cur[m] == k);
            } else {
                assert(cur[cur.len() - 1] == k);
            }
        }
    }
}

} // verus!
