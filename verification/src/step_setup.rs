//! What a step's plan settles before any tool is assigned: its bindings, its hole
//! requirements, its routers and locating-pin tool, the warnings those choices raise,
//! and the rack the assignment must fit.

use vstd::prelude::*;

use crate::holes::{collect_hole_groups, groups_spec, BoardHole, HoleGroup};
use crate::model::StockTool;
use crate::plan::{step_bindings, step_machine, step_toolset, CncMachine};
use crate::rack::spare_keys;
use crate::rack_spec::{build_rack_spec, capacity_spec, fixed_pairs, map_policy_spec, RackSpec};
use crate::routing::{
    id_of, outline_router_spec, pick_pin_tool, pin_tool_spec, pin_view, plan_router_texts, plan_routers,
    plan_widths, text_of, unroutable_slot_warning, unroutable_slot_warning_spec, PinTool, RouterPlan,
};
use crate::steps::{drills_pins, enables, missing_bindings_spec, oblong_from_key, OblongStrategy, StepRaw};
use crate::text::{insert_sorted, strictly_sorted, texts};

verus! {

/// Something the operator should know about a step before it runs.
#[derive(Clone, Copy, Debug, PartialEq, Eq, Structural)]
pub enum PlanWarning {
    /// The step routes the outline and no router is in stock.
    NoOutlineRouter,
    /// No router is narrow enough for slots this wide.
    UnroutableSlot { width_um: i64 },
    /// Neither an exact drill nor a narrow enough router exists for the locating pins.
    NoPinTool { diameter_um: i64 },
    /// The locating-pin holes are milled to size by a router.
    PinMilled,
}

/// A step ready for tool assignment.
pub struct StepSetup {
    /// The step's toolset and CNC, as indices into the profiles it was planned with.
    pub toolset: usize,
    pub machine: usize,
    /// Slots of the machine's automatic tool changer; 0 for manual tool changes.
    pub atc_slots: usize,
    /// The hole requirements, in order of first appearance.
    pub groups: Vec<HoleGroup>,
    /// Whether the oblong strategy drills into a slot, and whether it routes one.
    pub oblong_drills: bool,
    pub oblong_routes: bool,
    pub routers: RouterPlan,
    pub pin_tool: Option<PinTool>,
    pub warnings: Vec<PlanWarning>,
    /// The rack the assignment must fit, the routers and pin tool reserved in it.
    pub rack: RackSpec,
}

/// How far a step's planning gets before tool assignment.
pub enum StepPrelude {
    /// The step cannot be planned: the line to show.
    Failed(String),
    /// Nothing to machine in this step.
    Empty,
    Ready(StepSetup),
}

/// The locating-pin diameter a step asks for, when it drills locating pins at all.
pub open spec fn pin_request(raw: StepRaw) -> Option<i64> {
    if drills_pins(raw) {
        raw.pin_diameter_um
    } else {
        None
    }
}

/// Whether any requirement is an oblong slot.
pub open spec fn has_oblong(groups: Seq<HoleGroup>) -> bool {
    exists|k: int| 0 <= k < groups.len() && (#[trigger] groups[k]).minor_um is Some
}

/// The warning the locating-pin choice raises, if any.
pub open spec fn pin_warnings(request: Option<i64>, pin: Option<(bool, Seq<char>, i64)>) -> Seq<PlanWarning> {
    match request {
        None => Seq::empty(),
        Some(d) => match pin {
            None => seq![PlanWarning::NoPinTool { diameter_um: d }],
            Some(p) => if p.0 {
                Seq::empty()
            } else {
                seq![PlanWarning::PinMilled]
            },
        },
    }
}

/// A step's warnings, in order: the outline router, each unroutable slot width, the
/// locating pins.
pub open spec fn step_warnings(
    outline_missing: bool,
    unroutable: Seq<i64>,
    request: Option<i64>,
    pin: Option<(bool, Seq<char>, i64)>,
) -> Seq<PlanWarning> {
    (if outline_missing {
        seq![PlanWarning::NoOutlineRouter]
    } else {
        Seq::empty()
    }) + unroutable.map_values(|w: i64| PlanWarning::UnroutableSlot { width_um: w }) + pin_warnings(request, pin)
}

/// What a step whose bindings resolve to toolset `t` and machine `m` comes to.
pub open spec fn prelude_is(
    r: StepPrelude,
    raw: StepRaw,
    t: int,
    toolset_slots: Seq<(u8, crate::model::RackSlot)>,
    toolset_policy: crate::model::ToolsetGenerationPolicy,
    m: int,
    machine: CncMachine,
    tools: Seq<StockTool>,
    holes: Seq<BoardHole>,
) -> bool {
    let has_pth = enables(raw, "drill_pth"@);
    let has_npth = enables(raw, "drill_npth"@);
    let has_route = enables(raw, "route_board"@) || enables(raw, "mill_board"@);
    let groups = groups_spec(holes, has_pth, has_npth);
    let strategy = oblong_from_key(raw.drill.oblong@);
    let routes_slots = has_oblong(groups) && strategy != OblongStrategy::DrillChain;
    let request = pin_request(raw);
    let pin = match request {
        Some(d) => pin_tool_spec(tools, toolset_slots, d),
        None => None,
    };
    let widths = plan_widths(tools, toolset_slots, groups);
    if groups.len() == 0 && !has_route && pin is None {
        r is Empty
    } else {
        r matches StepPrelude::Ready(s) && {
            &&& s.toolset == t
            &&& s.machine == m
            &&& s.atc_slots == machine.atc_slot_count
            &&& s.groups@ == groups
            &&& s.oblong_drills == (strategy != OblongStrategy::Route)
            &&& s.oblong_routes == (strategy != OblongStrategy::DrillChain)
            &&& text_of(s.routers.outline) == (if has_route {
                id_of(tools, outline_router_spec(tools, toolset_slots))
            } else {
                None
            })
            &&& s.routers.widths() == (if routes_slots {
                widths.0
            } else {
                Seq::empty()
            })
            &&& s.routers.unroutable_widths@ == (if routes_slots {
                widths.1
            } else {
                Seq::empty()
            })
            &&& match s.pin_tool {
                Some(p) => pin == Some(pin_view(p)),
                None => pin is None,
            }
            &&& s.warnings@ == step_warnings(
                has_route && outline_router_spec(tools, toolset_slots) is None,
                s.routers.unroutable_widths@,
                request,
                pin,
            )
            &&& s.rack.fixed@.map_values(|p: (u8, String)| (p.0, p.1@)) == fixed_pairs(toolset_slots)
            &&& s.rack.spare_slots@ == spare_keys(toolset_slots)
            &&& s.rack.capacity == capacity_spec(toolset_slots, machine.atc_slot_count as usize)
            &&& s.rack.policy == map_policy_spec(toolset_policy)
            &&& strictly_sorted(texts(s.rack.mandatory@))
            &&& texts(s.rack.mandatory@).to_set() == match pin {
                Some(p) => plan_router_texts(s.routers).insert(p.1),
                None => plan_router_texts(s.routers),
            }
        }
    }
}

fn any_oblong(groups: &Vec<HoleGroup>) -> (r: bool)
    ensures
        r == has_oblong(groups@),
{
    let mut k: usize = 0;
    while k < groups.len()
        invariant
            k <= groups@.len(),
            forall|j: int| 0 <= j < k ==> groups@[j].minor_um is None,
        decreases groups@.len() - k,
    {
        if groups[k].minor_um.is_some() {
            assert(groups@[k as int].minor_um is Some);
            return true;
        }
        k += 1;
    }
    false
}

/// Plans a step up to tool assignment: refuses it when a binding is missing or its
/// toolset or CNC cannot be found, finds it empty when it machines nothing, and
/// otherwise settles its hole requirements, routers, locating-pin tool, warnings and
/// rack.
pub fn prepare_step(
    raw: &StepRaw,
    toolsets: &Vec<crate::model::ToolsetProfile>,
    machines: &Vec<CncMachine>,
    tools: &Vec<StockTool>,
    holes: &Vec<BoardHole>,
) -> (r: StepPrelude)
    ensures
        match missing_bindings_spec(*raw) {
            Some(reason) => r matches StepPrelude::Failed(e) && e@ == reason,
            None => match step_toolset(*raw, toolsets@) {
                None => r matches StepPrelude::Failed(e) && e@ == "The step's toolset profile could not be found."@,
                Some(t) => match step_machine(*raw, machines@) {
                    None => r matches StepPrelude::Failed(e) && e@ == "The step's CNC profile could not be found."@,
                    Some(m) => prelude_is(
                        r,
                        *raw,
                        t,
                        toolsets@[t].slots@,
                        toolsets@[t].generation_policy,
                        m,
                        machines@[m],
                        tools@,
                        holes@,
                    ),
                },
            },
        },
{
    let (t, m) = match step_bindings(raw, toolsets, machines) {
        Ok(pair) => pair,
        Err(reason) => {
            return StepPrelude::Failed(reason);
        },
    };
    let toolset = &toolsets[t];
    let atc_slots = machines[m].atc_slot_count as usize;
    let has_route = raw.routes_outline();
    let groups = collect_hole_groups(holes, raw.drills_pth(), raw.drills_npth());
    let strategy = raw.oblong_strategy();
    let oblong_drills = strategy.drills();
    let oblong_routes = strategy.routes();
    let routes_slots = any_oblong(&groups) && oblong_routes;
    let routers = plan_routers(tools, toolset, &groups, has_route, routes_slots);

    let mut warnings: Vec<PlanWarning> = Vec::new();
    if has_route && routers.outline.is_none() {
        warnings.push(PlanWarning::NoOutlineRouter);
    }
    let ghost head = warnings@;
    let mut k: usize = 0;
    while k < routers.unroutable_widths.len()
        invariant
            k <= routers.unroutable_widths@.len(),
            warnings@ == head + routers.unroutable_widths@.take(k as int).map_values(
                |w: i64| PlanWarning::UnroutableSlot { width_um: w },
            ),
        decreases routers.unroutable_widths@.len() - k,
    {
        let width = routers.unroutable_widths[k];
        warnings.push(PlanWarning::UnroutableSlot { width_um: width });
        proof {
            let un = routers.unroutable_widths@;
            assert(un.take(k + 1) =~= un.take(k as int).push(width));
            assert(un.take(k + 1).map_values(|w: i64| PlanWarning::UnroutableSlot { width_um: w })
                =~= un.take(k as int).map_values(|w: i64| PlanWarning::UnroutableSlot { width_um: w }).push(
                PlanWarning::UnroutableSlot { width_um: width },
            ));
        }
        k += 1;
    }
    proof {
        assert(routers.unroutable_widths@.take(k as int) =~= routers.unroutable_widths@);
    }

    let request: Option<i64> = if raw.drills_locating_pins() {
        raw.pin_diameter_um
    } else {
        None
    };
    let pin_tool = match request {
        Some(d) => pick_pin_tool(tools, toolset, d),
        None => None,
    };
    let ghost before_pin = warnings@;
    match request {
        Some(d) => match &pin_tool {
            None => {
                warnings.push(PlanWarning::NoPinTool { diameter_um: d });
            },
            Some(PinTool::Router { .. }) => {
                warnings.push(PlanWarning::PinMilled);
            },
            Some(PinTool::Drill { .. }) => {},
        },
        None => {},
    }
    proof {
        let pin = match request {
            Some(d) => pin_tool_spec(tools@, toolset.slots@, d),
            None => None,
        };
        assert(warnings@ =~= before_pin + pin_warnings(request, pin));
    }

    if groups.len() == 0 && !has_route && pin_tool.is_none() {
        return StepPrelude::Empty;
    }

    let mut mandatory = routers.mandatory_ids();
    match &pin_tool {
        Some(p) => {
            insert_sorted(&mut mandatory, p.id().to_string());
        },
        None => {},
    }
    let rack = build_rack_spec(toolset, atc_slots, &mandatory);
    proof {
        assert(texts(rack.mandatory@).to_set() =~= texts(mandatory@).to_set());
    }
    StepPrelude::Ready(
        StepSetup {
            toolset: t,
            machine: m,
            atc_slots,
            groups,
            oblong_drills,
            oblong_routes,
            routers,
            pin_tool,
            warnings,
            rack,
        },
    )
}

/// The text of a warning about a step, `length_text` being the width or diameter it
/// names as the operator reads it (unused by the warnings that name none).
pub open spec fn warning_text_spec(w: PlanWarning, tools: Seq<StockTool>, length_text: Seq<char>) -> Seq<char> {
    match w {
        PlanWarning::NoOutlineRouter => "No router in stock for the board outline — outline routing is unresolved."@,
        PlanWarning::UnroutableSlot { .. } => unroutable_slot_warning_spec(tools, length_text),
        PlanWarning::NoPinTool { .. } => "No "@ + length_text
            + " drill in stock for the locating pins, and no router narrow enough to mill one. A registration hole is never made to a nearly-right size, so the step cannot run — stock a "@
            + length_text + " drill."@,
        PlanWarning::PinMilled =>
            "No exact-size drill for the locating pins, so their holes are milled to size with a router. Correct, but slower than drilling them."@,
    }
}

/// The text of a warning about a step.
pub fn warning_text(w: PlanWarning, tools: &Vec<StockTool>, length_text: &str) -> (s: String)
    ensures
        s@ == warning_text_spec(w, tools@, length_text@),
{
    match w {
        PlanWarning::NoOutlineRouter => {
            "No router in stock for the board outline — outline routing is unresolved.".to_string()
        },
        PlanWarning::UnroutableSlot { .. } => unroutable_slot_warning(tools, length_text),
        PlanWarning::NoPinTool { .. } => {
            let mut s = String::new();
            s.append("No ");
            s.append(length_text);
            s.append(
                " drill in stock for the locating pins, and no router narrow enough to mill one. A registration hole is never made to a nearly-right size, so the step cannot run — stock a ",
            );
            s.append(length_text);
            s.append(" drill.");
            s
        },
        PlanWarning::PinMilled => {
            "No exact-size drill for the locating pins, so their holes are milled to size with a router. Correct, but slower than drilling them.".to_string()
        },
    }
}

} // verus!
