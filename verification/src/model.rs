//! The stock and toolset data the planners read, held as plain values.
//!
//! Lengths are whole micrometres, the precision at which the tool assigner compares
//! sizes; user-unit renderings of a length arrive pre-formatted as text.

use vstd::prelude::*;
use crate::text::text_equal;

verus! {

/// What kind of cutter a stock tool is.
#[derive(Clone, Copy, Debug, PartialEq, Eq, Structural)]
pub enum ToolKind {
    Drillbit,
    Routerbit,
    Endmill,
    Vbit,
    Engraver,
}

/// Whether a stock tool is on the shelf.
#[derive(Clone, Copy, Debug, PartialEq, Eq, Structural)]
pub enum ToolStatus {
    InStock,
    OutOfStock,
}

/// One tool of the shop's stock.
#[derive(Clone, Debug)]
pub struct StockTool {
    pub id: String,
    pub kind: ToolKind,
    /// Cutting diameter in micrometres.
    pub diameter_um: i64,
    pub status: ToolStatus,
    /// The name shown to the operator.
    pub display_name: String,
    /// The diameter rendered in the operator's units.
    pub diameter_text: String,
}

/// One physical slot of a toolset's rack.
#[derive(Clone, Debug)]
pub struct RackSlot {
    /// The tool pinned here, if any.
    pub tool_id: Option<String>,
    /// Pinned by the toolset: the slot's tool never changes.
    pub locked: bool,
    /// A do-not-use slot.
    pub disabled: bool,
}

/// How a toolset may be extended when a job needs more tools than it pins.
#[derive(Clone, Copy, Debug, PartialEq, Eq, Structural)]
pub enum ToolsetGenerationPolicy {
    FixedToolset,
    AllowReload,
    AllowHybrid,
}

/// A toolset: the rack layout a step runs with.
#[derive(Clone, Debug)]
pub struct ToolsetProfile {
    pub id: String,
    pub name: String,
    pub generation_policy: ToolsetGenerationPolicy,
    /// The slots by slot number, in increasing slot order.
    pub slots: Vec<(u8, RackSlot)>,
}

impl ToolsetProfile {
    /// Slot numbers are strictly increasing, as in a map keyed by slot number.
    pub open spec fn wf(&self) -> bool {
        forall|i: int, j: int| 0 <= i < j < self.slots@.len() ==> self.slots@[i].0 < self.slots@[j].0
    }
}

/// The index of the first tool whose id is `id`, if any.
pub open spec fn find_tool(tools: Seq<StockTool>, id: Seq<char>) -> Option<int>
    decreases tools.len(),
{
    if tools.len() == 0 {
        None
    } else if tools[0].id@ == id {
        Some(0)
    } else {
        match find_tool(tools.drop_first(), id) {
            Some(i) => Some(i + 1),
            None => None,
        }
    }
}

/// A stock tool's display label with its diameter, or a placeholder naming the id.
pub open spec fn tool_label_spec(tools: Seq<StockTool>, id: Seq<char>) -> Seq<char> {
    match find_tool(tools, id) {
        Some(i) => tools[i].display_name@ + " (⌀"@ + tools[i].diameter_text@ + ")"@,
        None => "Unknown tool ("@ + id + ")"@,
    }
}

pub proof fn lemma_find_tool(tools: Seq<StockTool>, id: Seq<char>)
    ensures
        find_tool(tools, id) matches Some(i) ==> 0 <= i < tools.len() && tools[i].id@ == id && forall|j: int|
            0 <= j < i ==> tools[j].id@ != id,
        find_tool(tools, id) is None ==> forall|j: int| 0 <= j < tools.len() ==> tools[j].id@ != id,
    decreases tools.len(),
{
    if tools.len() > 0 {
        lemma_find_tool(tools.drop_first(), id);
        if tools[0].id@ != id {
            assert forall|j: int| 1 <= j < tools.len() implies tools[j] == tools.drop_first()[j - 1] by {}
        }
    }
}

/// Finds the first tool with the given id.
pub fn find_tool_index(tools: &Vec<StockTool>, id: &str) -> (r: Option<usize>)
    ensures
        r matches Some(i) ==> find_tool(tools@, id@) == Some(i as int),
        r is None ==> find_tool(tools@, id@) is None,
{
    proof {
        lemma_find_tool(tools@, id@);
    }
    let mut i: usize = 0;
    while i < tools.len()
        invariant
            i <= tools@.len(),
            forall|j: int| 0 <= j < i ==> tools@[j].id@ != id@,
        decreases tools.len() - i,
    {
        if text_equal(tools[i].id.as_str(), id) {
            proof {
                lemma_first_match(tools@, id@, i as int);
            }
            return Some(i);
        }
        i += 1;
    }
    None
}

proof fn lemma_first_match(tools: Seq<StockTool>, id: Seq<char>, i: int)
    requires
        0 <= i < tools.len(),
        tools[i].id@ == id,
        forall|j: int| 0 <= j < i ==> tools[j].id@ != id,
    ensures
        find_tool(tools, id) == Some(i),
    decreases i,
{
    if i > 0 {
        assert(tools.drop_first()[i - 1] == tools[i]);
        assert forall|j: int| 0 <= j < i - 1 implies tools.drop_first()[j].id@ != id by {
            assert(tools.drop_first()[j] == tools[j + 1]);
        }
        lemma_first_match(tools.drop_first(), id, i - 1);
    }
}

/// A stock tool's display label with its diameter.
pub fn tool_label(tools: &Vec<StockTool>, tool_id: &String) -> (label: String)
    ensures
        label@ == tool_label_spec(tools@, tool_id@),
{
    match find_tool_index(tools, tool_id.as_str()) {
        Some(i) => {
            proof {
                lemma_find_tool(tools@, tool_id@);
            }
            let mut s = tools[i].display_name.clone();
            s.append(" (⌀");
            s.append(tools[i].diameter_text.as_str());
            s.append(")");
            s
        },
        None => {
            let mut s = String::new();
            s.append("Unknown tool (");
            s.append(tool_id.as_str());
            s.append(")");
            assert(s@ =~= "Unknown tool ("@ + tool_id@ + ")"@);
            s
        },
    }
}

} // verus!
