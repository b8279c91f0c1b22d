//! Choosing the milling tools of a step: the board-outline router, one router per
//! slot width, and the tool that makes a locating-pin hole.
//!
//! A cutter wider than a slot cannot enter it, so `diameter <= width` is a hard
//! constraint; among cutters that fit the largest wins (stiffest, fewest passes). A
//! toolset-fixed router is preferred, since it is already in the rack and costs no
//! slot. A registration hole is never made to a nearly-right size: an exact drill,
//! else a router that mills it to size, else nothing.

use vstd::prelude::*;

use crate::holes::HoleGroup;
use crate::model::{find_tool, find_tool_index, lemma_find_tool, RackSlot, StockTool, ToolKind, ToolStatus, ToolsetProfile};
use crate::text::{insert_sorted, strictly_sorted, texts};

verus! {

// ---------------------------------------------------------------------------
// Which tools mill
// ---------------------------------------------------------------------------

/// Whether a kind of tool can mill (as opposed to drill).
pub open spec fn is_router_kind(kind: ToolKind) -> bool {
    kind == ToolKind::Routerbit || kind == ToolKind::Endmill
}

/// A router on the shelf.
pub open spec fn is_stock_router(t: StockTool) -> bool {
    is_router_kind(t.kind) && t.status == ToolStatus::InStock
}

/// Whether a tool can mill (as opposed to drill).
pub fn is_router_tool(tool: &StockTool) -> (r: bool)
    ensures
        r == is_router_kind(tool.kind),
{
    match tool.kind {
        ToolKind::Routerbit | ToolKind::Endmill => true,
        _ => false,
    }
}

// ---------------------------------------------------------------------------
// The model
// ---------------------------------------------------------------------------

/// The first router of the stock whose id is `id`.
pub open spec fn router_with_id(tools: Seq<StockTool>, id: Seq<char>) -> Option<int>
    decreases tools.len(),
{
    if tools.len() == 0 {
        None
    } else if tools[0].id@ == id && is_router_kind(tools[0].kind) {
        Some(0)
    } else {
        match router_with_id(tools.drop_first(), id) {
            Some(i) => Some(i + 1),
            None => None,
        }
    }
}

/// The in-stock routers, as stock indices in stock order.
pub open spec fn stock_router_indices(tools: Seq<StockTool>) -> Seq<int>
    decreases tools.len(),
{
    if tools.len() == 0 {
        Seq::empty()
    } else if is_stock_router(tools.last()) {
        stock_router_indices(tools.drop_last()).push(tools.len() - 1)
    } else {
        stock_router_indices(tools.drop_last())
    }
}

/// The routers pinned in the toolset's slots, in slot order, as stock indices.
pub open spec fn fixed_routers_spec(tools: Seq<StockTool>, slots: Seq<(u8, RackSlot)>) -> Seq<int>
    decreases slots.len(),
{
    if slots.len() == 0 {
        Seq::empty()
    } else {
        let prev = fixed_routers_spec(tools, slots.drop_last());
        match slots.last().1.tool_id {
            Some(id) => match router_with_id(tools, id@) {
                Some(j) => prev.push(j),
                None => prev,
            },
            None => prev,
        }
    }
}

/// The smallest in-stock router, the first of equals.
pub open spec fn smallest_stock_router(tools: Seq<StockTool>) -> Option<int>
    decreases tools.len(),
{
    if tools.len() == 0 {
        None
    } else {
        let best = smallest_stock_router(tools.drop_last());
        let t = tools.last();
        if is_stock_router(t) && (best is None || t.diameter_um < tools[best->0].diameter_um) {
            Some(tools.len() - 1)
        } else {
            best
        }
    }
}

/// The largest in-stock router no wider than `width`, the last of equals.
pub open spec fn largest_fitting_stock_router(tools: Seq<StockTool>, width: i64) -> Option<int>
    decreases tools.len(),
{
    if tools.len() == 0 {
        None
    } else {
        let best = largest_fitting_stock_router(tools.drop_last(), width);
        let t = tools.last();
        if is_stock_router(t) && t.diameter_um <= width && (best is None || t.diameter_um
            >= tools[best->0].diameter_um) {
            Some(tools.len() - 1)
        } else {
            best
        }
    }
}

/// The first of the given stock indices whose tool is no wider than `width`.
pub open spec fn first_fitting(tools: Seq<StockTool>, idx: Seq<int>, width: i64) -> Option<int>
    decreases idx.len(),
{
    if idx.len() == 0 {
        None
    } else if tools[idx[0]].diameter_um <= width {
        Some(idx[0])
    } else {
        first_fitting(tools, idx.drop_first(), width)
    }
}

/// The outline router: one already fixed in the toolset, else the smallest in stock
/// (safest for internal corners).
pub open spec fn outline_router_spec(tools: Seq<StockTool>, slots: Seq<(u8, RackSlot)>) -> Option<int> {
    let fixed = fixed_routers_spec(tools, slots);
    if fixed.len() > 0 {
        Some(fixed[0])
    } else {
        smallest_stock_router(tools)
    }
}

/// The router that mills a slot `width` across: a fixed router that fits, else the
/// largest in-stock router that fits.
pub open spec fn slot_router_spec(tools: Seq<StockTool>, slots: Seq<(u8, RackSlot)>, width: i64) -> Option<int> {
    match first_fitting(tools, fixed_routers_spec(tools, slots), width) {
        Some(j) => Some(j),
        None => largest_fitting_stock_router(tools, width),
    }
}

/// The text of a chosen tool's id.
pub open spec fn id_of(tools: Seq<StockTool>, choice: Option<int>) -> Option<Seq<char>> {
    match choice {
        Some(j) => Some(tools[j].id@),
        None => None,
    }
}

/// An optional string by its text.
pub open spec fn text_of(o: Option<String>) -> Option<Seq<char>> {
    match o {
        Some(s) => Some(s@),
        None => None,
    }
}

// ---------------------------------------------------------------------------
// Facts about the model
// ---------------------------------------------------------------------------

proof fn lemma_router_with_id(tools: Seq<StockTool>, id: Seq<char>)
    ensures
        router_with_id(tools, id) matches Some(i) ==> 0 <= i < tools.len() && tools[i].id@ == id
            && is_router_kind(tools[i].kind) && forall|j: int|
            0 <= j < i ==> !(tools[j].id@ == id && is_router_kind(tools[j].kind)),
        router_with_id(tools, id) is None ==> forall|j: int|
            0 <= j < tools.len() ==> !(tools[j].id@ == id && is_router_kind(tools[j].kind)),
    decreases tools.len(),
{
    if tools.len() > 0 {
        lemma_router_with_id(tools.drop_first(), id);
        assert forall|j: int| 1 <= j < tools.len() implies tools[j] == tools.drop_first()[j - 1] by {}
    }
}

proof fn lemma_router_with_id_first(tools: Seq<StockTool>, id: Seq<char>, i: int)
    requires
        0 <= i < tools.len(),
        tools[i].id@ == id && is_router_kind(tools[i].kind),
        forall|j: int| 0 <= j < i ==> !(tools[j].id@ == id && is_router_kind(tools[j].kind)),
    ensures
        router_with_id(tools, id) == Some(i),
    decreases i,
{
    if i > 0 {
        assert(tools.drop_first()[i - 1] == tools[i]);
        assert forall|j: int| 0 <= j < i - 1 implies !(tools.drop_first()[j].id@ == id && is_router_kind(
            tools.drop_first()[j].kind,
        )) by {
            assert(tools.drop_first()[j] == tools[j + 1]);
        }
        lemma_router_with_id_first(tools.drop_first(), id, i - 1);
    }
}

proof fn lemma_fixed_routers_are_routers(tools: Seq<StockTool>, slots: Seq<(u8, RackSlot)>)
    ensures
        forall|k: int|
            0 <= k < fixed_routers_spec(tools, slots).len() ==> 0 <= #[trigger] fixed_routers_spec(tools, slots)[k]
                < tools.len() && is_router_kind(tools[fixed_routers_spec(tools, slots)[k]].kind),
    decreases slots.len(),
{
    if slots.len() > 0 {
        lemma_fixed_routers_are_routers(tools, slots.drop_last());
        match slots.last().1.tool_id {
            Some(id) => lemma_router_with_id(tools, id@),
            None => {},
        }
    }
}

proof fn lemma_first_fitting(tools: Seq<StockTool>, idx: Seq<int>, width: i64)
    ensures
        first_fitting(tools, idx, width) matches Some(j) ==> idx.contains(j) && tools[j].diameter_um <= width,
    decreases idx.len(),
{
    if idx.len() > 0 {
        lemma_first_fitting(tools, idx.drop_first(), width);
        if let Some(j) = first_fitting(tools, idx.drop_first(), width) {
            if tools[idx[0]].diameter_um > width {
                let k = choose|k: int| 0 <= k < idx.drop_first().len() && idx.drop_first()[k] == j;
                assert(idx[k + 1] == j);
            }
        }
    }
}

/// The smallest stock router is an in-stock router no larger than any other.
pub proof fn lemma_smallest_stock_router(tools: Seq<StockTool>)
    ensures
        smallest_stock_router(tools) matches Some(i) ==> 0 <= i < tools.len() && is_stock_router(tools[i])
            && forall|j: int| 0 <= j < tools.len() && is_stock_router(#[trigger] tools[j]) ==> tools[i].diameter_um
                <= tools[j].diameter_um,
        smallest_stock_router(tools) is None ==> forall|j: int| 0 <= j < tools.len() ==> !is_stock_router(#[trigger] tools[j]),
    decreases tools.len(),
{
    if tools.len() > 0 {
        lemma_smallest_stock_router(tools.drop_last());
        assert forall|j: int| 0 <= j < tools.len() - 1 implies tools[j] == tools.drop_last()[j] by {}
    }
}

/// The largest fitting stock router is an in-stock router no wider than `width` and at
/// least as large as every other that fits.
pub proof fn lemma_largest_fitting_stock_router(tools: Seq<StockTool>, width: i64)
    ensures
        largest_fitting_stock_router(tools, width) matches Some(i) ==> 0 <= i < tools.len() && is_stock_router(
            tools[i],
        ) && tools[i].diameter_um <= width && forall|j: int|
            0 <= j < tools.len() && is_stock_router(#[trigger] tools[j]) && tools[j].diameter_um <= width
                ==> tools[j].diameter_um <= tools[i].diameter_um,
        largest_fitting_stock_router(tools, width) is None ==> forall|j: int|
            0 <= j < tools.len() ==> !(is_stock_router(#[trigger] tools[j]) && tools[j].diameter_um <= width),
    decreases tools.len(),
{
    if tools.len() > 0 {
        lemma_largest_fitting_stock_router(tools.drop_last(), width);
        assert forall|j: int| 0 <= j < tools.len() - 1 implies tools[j] == tools.drop_last()[j] by {}
    }
}

/// A slot is never milled by a cutter wider than it: the chosen router fits, is a
/// router, and — when no toolset-fixed router fits — is the largest in-stock router
/// that does.
pub proof fn lemma_slot_router_fits(tools: Seq<StockTool>, slots: Seq<(u8, RackSlot)>, width: i64)
    ensures
        slot_router_spec(tools, slots, width) matches Some(i) ==> 0 <= i < tools.len() && is_router_kind(
            tools[i].kind,
        ) && tools[i].diameter_um <= width,
        first_fitting(tools, fixed_routers_spec(tools, slots), width) is None ==> slot_router_spec(tools, slots, width)
            == largest_fitting_stock_router(tools, width),
{
    lemma_fixed_routers_are_routers(tools, slots);
    lemma_first_fitting(tools, fixed_routers_spec(tools, slots), width);
    lemma_largest_fitting_stock_router(tools, width);
    if let Some(j) = first_fitting(tools, fixed_routers_spec(tools, slots), width) {
        let k = choose|k: int|
            0 <= k < fixed_routers_spec(tools, slots).len() && fixed_routers_spec(tools, slots)[k] == j;
        assert(0 <= fixed_routers_spec(tools, slots)[k] < tools.len());
    }
}

/// The stock router a toolset slot pins, if its tool is a router in stock's list.
pub open spec fn pinned_router(tools: Seq<StockTool>, slot: (u8, RackSlot)) -> Option<int> {
    match slot.1.tool_id {
        Some(id) => router_with_id(tools, id@),
        None => None,
    }
}

proof fn lemma_no_pinned_router(tools: Seq<StockTool>, slots: Seq<(u8, RackSlot)>)
    requires
        forall|b: int| 0 <= b < slots.len() ==> pinned_router(tools, #[trigger] slots[b]) is None,
    ensures
        fixed_routers_spec(tools, slots).len() == 0,
    decreases slots.len(),
{
    if slots.len() > 0 {
        assert(pinned_router(tools, slots[slots.len() - 1]) is None);
        assert forall|b: int| 0 <= b < slots.drop_last().len() implies pinned_router(
            tools,
            #[trigger] slots.drop_last()[b],
        ) is None by {
            assert(slots.drop_last()[b] == slots[b]);
        }
        lemma_no_pinned_router(tools, slots.drop_last());
    }
}

proof fn lemma_first_pinned_router(tools: Seq<StockTool>, slots: Seq<(u8, RackSlot)>, a: int)
    requires
        0 <= a < slots.len(),
        pinned_router(tools, slots[a]) is Some,
        forall|b: int| 0 <= b < a ==> pinned_router(tools, #[trigger] slots[b]) is None,
    ensures
        fixed_routers_spec(tools, slots).len() > 0,
        Some(fixed_routers_spec(tools, slots)[0]) == pinned_router(tools, slots[a]),
    decreases slots.len(),
{
    let prev = fixed_routers_spec(tools, slots.drop_last());
    if a < slots.len() - 1 {
        assert(slots.drop_last()[a] == slots[a]);
        assert forall|b: int| 0 <= b < a implies pinned_router(tools, #[trigger] slots.drop_last()[b]) is None by {
            assert(slots.drop_last()[b] == slots[b]);
        }
        lemma_first_pinned_router(tools, slots.drop_last(), a);
    } else {
        assert forall|b: int| 0 <= b < slots.drop_last().len() implies pinned_router(
            tools,
            #[trigger] slots.drop_last()[b],
        ) is None by {
            assert(slots.drop_last()[b] == slots[b]);
        }
        lemma_no_pinned_router(tools, slots.drop_last());
    }
}

/// **The outline router is the first router pinned in slot order.** When a slot pins
/// a router and no lower-numbered slot does, the outline router is that slot's router:
/// no pinned router in an earlier slot is passed over for a later one.
pub proof fn lemma_outline_router_is_first_pinned(tools: Seq<StockTool>, slots: Seq<(u8, RackSlot)>, a: int)
    requires
        forall|i: int, j: int| 0 <= i < j < slots.len() ==> slots[i].0 < slots[j].0,
        0 <= a < slots.len(),
        pinned_router(tools, slots[a]) is Some,
        forall|b: int| 0 <= b < slots.len() && slots[b].0 < slots[a].0 ==> pinned_router(tools, #[trigger] slots[b]) is None,
    ensures
        outline_router_spec(tools, slots) == pinned_router(tools, slots[a]),
{
    assert forall|b: int| 0 <= b < a implies pinned_router(tools, #[trigger] slots[b]) is None by {
        assert(slots[b].0 < slots[a].0);
    }
    lemma_first_pinned_router(tools, slots, a);
}

/// When no slot pins a router, the outline router is the smallest in-stock router.
pub proof fn lemma_outline_router_without_pinned(tools: Seq<StockTool>, slots: Seq<(u8, RackSlot)>)
    requires
        forall|b: int| 0 <= b < slots.len() ==> pinned_router(tools, #[trigger] slots[b]) is None,
    ensures
        outline_router_spec(tools, slots) == smallest_stock_router(tools),
{
    lemma_no_pinned_router(tools, slots);
}

// ---------------------------------------------------------------------------
// Executable selection
// ---------------------------------------------------------------------------

fn router_with_id_index(tools: &Vec<StockTool>, id: &String) -> (r: Option<usize>)
    ensures
        r is None <==> router_with_id(tools@, id@) is None,
        r matches Some(i) ==> router_with_id(tools@, id@) == Some(i as int),
{
    proof {
        lemma_router_with_id(tools@, id@);
    }
    let mut i: usize = 0;
    while i < tools.len()
        invariant
            i <= tools@.len(),
            forall|j: int| 0 <= j < i ==> !(tools@[j].id@ == id@ && is_router_kind(tools@[j].kind)),
        decreases tools@.len() - i,
    {
        if tools[i].id == *id && is_router_tool(&tools[i]) {
            proof {
                lemma_router_with_id_first(tools@, id@, i as int);
            }
            return Some(i);
        }
        i += 1;
    }
    None
}

/// Routers pinned in the toolset's slots, in slot order, as stock indices. These are
/// already in the rack, so choosing one costs no slot.
pub fn fixed_routers(tools: &Vec<StockTool>, toolset: &ToolsetProfile) -> (r: Vec<usize>)
    ensures
        r@.len() == fixed_routers_spec(tools@, toolset.slots@).len(),
        forall|k: int| 0 <= k < r@.len() ==> #[trigger] r@[k] as int == fixed_routers_spec(tools@, toolset.slots@)[k],
{
    let ghost slots = toolset.slots@;
    let mut r: Vec<usize> = Vec::new();
    let mut i: usize = 0;
    while i < toolset.slots.len()
        invariant
            i <= slots.len(),
            slots == toolset.slots@,
            r@.len() == fixed_routers_spec(tools@, slots.take(i as int)).len(),
            forall|k: int| 0 <= k < r@.len() ==> #[trigger] r@[k] as int == fixed_routers_spec(tools@, slots.take(i as int))[k],
        decreases slots.len() - i,
    {
        proof {
            assert(slots.take(i + 1).drop_last() =~= slots.take(i as int));
            assert(slots.take(i + 1).last() == slots[i as int]);
        }
        match &toolset.slots[i].1.tool_id {
            Some(id) => {
                match router_with_id_index(tools, id) {
                    Some(j) => {
                        r.push(j);
                    },
                    None => {},
                }
            },
            None => {},
        }
        i += 1;
    }
    proof {
        assert(slots.take(slots.len() as int) =~= slots);
    }
    r
}

/// The smallest tool among the listed ones, the first of equals.
pub open spec fn smallest_of(tools: Seq<StockTool>, idx: Seq<int>) -> Option<int>
    decreases idx.len(),
{
    if idx.len() == 0 {
        None
    } else {
        let best = smallest_of(tools, idx.drop_last());
        let j = idx.last();
        if best is None || tools[j].diameter_um < tools[best->0].diameter_um {
            Some(j)
        } else {
            best
        }
    }
}

/// The largest of the listed tools no wider than `width`, the last of equals.
pub open spec fn largest_fitting_of(tools: Seq<StockTool>, idx: Seq<int>, width: i64) -> Option<int>
    decreases idx.len(),
{
    if idx.len() == 0 {
        None
    } else {
        let best = largest_fitting_of(tools, idx.drop_last(), width);
        let j = idx.last();
        if tools[j].diameter_um <= width && (best is None || tools[j].diameter_um >= tools[best->0].diameter_um) {
            Some(j)
        } else {
            best
        }
    }
}

proof fn lemma_stock_router_indices(tools: Seq<StockTool>)
    ensures
        forall|k: int|
            0 <= k < stock_router_indices(tools).len() ==> 0 <= #[trigger] stock_router_indices(tools)[k]
                < tools.len(),
    decreases tools.len(),
{
    if tools.len() > 0 {
        let prev = stock_router_indices(tools.drop_last());
        lemma_stock_router_indices(tools.drop_last());
        assert forall|k: int| 0 <= k < stock_router_indices(tools).len() implies 0 <= #[trigger] stock_router_indices(
            tools,
        )[k] < tools.len() by {
            if k < prev.len() {
                assert(stock_router_indices(tools)[k] == prev[k]);
            }
        }
    }
}

proof fn lemma_choice_on_prefix(tools: Seq<StockTool>, idx: Seq<int>, width: i64)
    requires
        tools.len() > 0,
        forall|k: int| 0 <= k < idx.len() ==> 0 <= #[trigger] idx[k] < tools.len() - 1,
    ensures
        smallest_of(tools, idx) == smallest_of(tools.drop_last(), idx),
        smallest_of(tools, idx) matches Some(b) ==> 0 <= b < tools.len() - 1,
        largest_fitting_of(tools, idx, width) == largest_fitting_of(tools.drop_last(), idx, width),
        largest_fitting_of(tools, idx, width) matches Some(b) ==> 0 <= b < tools.len() - 1,
    decreases idx.len(),
{
    if idx.len() > 0 {
        lemma_choice_on_prefix(tools, idx.drop_last(), width);
        let j = idx.last();
        assert(tools[j] == tools.drop_last()[j]);
        if let Some(b) = smallest_of(tools, idx.drop_last()) {
            assert(tools[b] == tools.drop_last()[b]);
        }
        if let Some(b) = largest_fitting_of(tools, idx.drop_last(), width) {
            assert(tools[b] == tools.drop_last()[b]);
        }
    }
}

proof fn lemma_choice_over_stock(tools: Seq<StockTool>, width: i64)
    ensures
        smallest_stock_router(tools) == smallest_of(tools, stock_router_indices(tools)),
        largest_fitting_stock_router(tools, width) == largest_fitting_of(tools, stock_router_indices(tools), width),
    decreases tools.len(),
{
    if tools.len() > 0 {
        let t = tools.drop_last();
        lemma_choice_over_stock(t, width);
        lemma_stock_router_indices(t);
        lemma_choice_on_prefix(tools, stock_router_indices(t), width);
        if let Some(b) = smallest_stock_router(t) {
            assert(tools[b] == t[b]);
        }
        if let Some(b) = largest_fitting_stock_router(t, width) {
            assert(tools[b] == t[b]);
        }
        if is_stock_router(tools.last()) {
            assert(stock_router_indices(tools).drop_last() == stock_router_indices(t));
        }
    }
}

fn smallest_among(tools: &Vec<StockTool>, idx: &Vec<usize>) -> (r: Option<usize>)
    requires
        forall|k: int| 0 <= k < idx@.len() ==> #[trigger] idx@[k] < tools@.len(),
    ensures
        r is None <==> smallest_of(tools@, idx@.map_values(|x: usize| x as int)) is None,
        r matches Some(i) ==> smallest_of(tools@, idx@.map_values(|x: usize| x as int)) == Some(i as int)
            && i < tools@.len(),
{
    let ghost all = idx@.map_values(|x: usize| x as int);
    let mut best: Option<usize> = None;
    let mut k: usize = 0;
    while k < idx.len()
        invariant
            k <= idx@.len(),
            all == idx@.map_values(|x: usize| x as int),
            forall|m: int| 0 <= m < idx@.len() ==> #[trigger] idx@[m] < tools@.len(),
            best is None <==> smallest_of(tools@, all.take(k as int)) is None,
            best matches Some(b) ==> smallest_of(tools@, all.take(k as int)) == Some(b as int) && b < tools@.len(),
        decreases idx@.len() - k,
    {
        assert(all.take(k + 1).drop_last() =~= all.take(k as int));
        assert(all.take(k + 1).last() == idx@[k as int] as int);
        let j = idx[k];
        let better = match best {
            None => true,
            Some(b) => tools[j].diameter_um < tools[b].diameter_um,
        };
        if better {
            best = Some(j);
        }
        k += 1;
    }
    assert(all.take(k as int) =~= all);
    best
}

fn largest_fitting_among(tools: &Vec<StockTool>, idx: &Vec<usize>, width: i64) -> (r: Option<usize>)
    requires
        forall|k: int| 0 <= k < idx@.len() ==> #[trigger] idx@[k] < tools@.len(),
    ensures
        r is None <==> largest_fitting_of(tools@, idx@.map_values(|x: usize| x as int), width) is None,
        r matches Some(i) ==> largest_fitting_of(tools@, idx@.map_values(|x: usize| x as int), width) == Some(
            i as int,
        ) && i < tools@.len(),
{
    let ghost all = idx@.map_values(|x: usize| x as int);
    let mut best: Option<usize> = None;
    let mut k: usize = 0;
    while k < idx.len()
        invariant
            k <= idx@.len(),
            all == idx@.map_values(|x: usize| x as int),
            forall|m: int| 0 <= m < idx@.len() ==> #[trigger] idx@[m] < tools@.len(),
            best is None <==> largest_fitting_of(tools@, all.take(k as int), width) is None,
            best matches Some(b) ==> largest_fitting_of(tools@, all.take(k as int), width) == Some(b as int) && b
                < tools@.len(),
        decreases idx@.len() - k,
    {
        assert(all.take(k + 1).drop_last() =~= all.take(k as int));
        assert(all.take(k + 1).last() == idx@[k as int] as int);
        let j = idx[k];
        let better = match best {
            None => true,
            Some(b) => tools[j].diameter_um >= tools[b].diameter_um,
        };
        if tools[j].diameter_um <= width && better {
            best = Some(j);
        }
        k += 1;
    }
    assert(all.take(k as int) =~= all);
    best
}

fn smallest_stock_router_index(tools: &Vec<StockTool>) -> (r: Option<usize>)
    ensures
        r is None <==> smallest_stock_router(tools@) is None,
        r matches Some(i) ==> smallest_stock_router(tools@) == Some(i as int),
{
    let stock = stock_routers(tools);
    proof {
        lemma_stock_router_indices(tools@);
        lemma_choice_over_stock(tools@, 0);
        assert forall|k: int| 0 <= k < stock@.len() implies #[trigger] stock@[k] < tools@.len() by {
            assert(stock@.map_values(|x: usize| x as int)[k] == stock@[k] as int);
        }
    }
    smallest_among(tools, &stock)
}

fn largest_fitting_index(tools: &Vec<StockTool>, width: i64) -> (r: Option<usize>)
    ensures
        r is None <==> largest_fitting_stock_router(tools@, width) is None,
        r matches Some(i) ==> largest_fitting_stock_router(tools@, width) == Some(i as int),
{
    let stock = stock_routers(tools);
    proof {
        lemma_stock_router_indices(tools@);
        lemma_choice_over_stock(tools@, width);
        assert forall|k: int| 0 <= k < stock@.len() implies #[trigger] stock@[k] < tools@.len() by {
            assert(stock@.map_values(|x: usize| x as int)[k] == stock@[k] as int);
        }
    }
    largest_fitting_among(tools, &stock, width)
}

/// Every in-stock router, as indices into `tools`, in stock order.
pub fn stock_routers(tools: &Vec<StockTool>) -> (r: Vec<usize>)
    ensures
        r@.map_values(|x: usize| x as int) == stock_router_indices(tools@),
{
    let mut r: Vec<usize> = Vec::new();
    let mut i: usize = 0;
    while i < tools.len()
        invariant
            i <= tools@.len(),
            r@.map_values(|x: usize| x as int) == stock_router_indices(tools@.take(i as int)),
        decreases tools@.len() - i,
    {
        assert(tools@.take(i + 1).drop_last() =~= tools@.take(i as int));
        assert(tools@.take(i + 1).last() == tools@[i as int]);
        let t = &tools[i];
        if is_router_tool(t) && t.status == ToolStatus::InStock {
            r.push(i);
        }
        i += 1;
        assert(r@.map_values(|x: usize| x as int) =~= stock_router_indices(tools@.take(i as int)));
    }
    assert(tools@.take(i as int) =~= tools@);
    r
}

/// Picks the board-outline router: a router already pinned in the toolset's slots,
/// else the smallest in-stock router. Returns its stock-tool id.
pub fn pick_outline_router(tools: &Vec<StockTool>, toolset: &ToolsetProfile) -> (r: Option<String>)
    ensures
        text_of(r) == id_of(tools@, outline_router_spec(tools@, toolset.slots@)),
{
    proof {
        lemma_fixed_routers_are_routers(tools@, toolset.slots@);
        lemma_smallest_stock_router(tools@);
    }
    let fixed = fixed_routers(tools, toolset);
    if fixed.len() > 0 {
        return Some(tools[fixed[0]].id.clone());
    }
    match smallest_stock_router_index(tools) {
        Some(i) => Some(tools[i].id.clone()),
        None => None,
    }
}

/// The warning for a slot no router can mill, given the slot width as the operator
/// reads it: names the smallest router in stock (shown by its diameter text) and what
/// to change, or says there is no router at all.
pub open spec fn unroutable_slot_warning_spec(tools: Seq<StockTool>, width_text: Seq<char>) -> Seq<char> {
    match smallest_stock_router(tools) {
        Some(i) => "Slot "@ + width_text + " is narrower than the smallest router in stock ("@ + tools[i].diameter_text@
            + "), so it cannot be milled. Stock a router no larger than "@ + width_text
            + ", or set this step's oblong strategy to drill only."@,
        None => "Slot "@ + width_text + " cannot be milled — no router in stock."@,
    }
}

/// The warning for a slot `width_text` wide that no router in stock fits.
pub fn unroutable_slot_warning(tools: &Vec<StockTool>, width_text: &str) -> (s: String)
    ensures
        s@ == unroutable_slot_warning_spec(tools@, width_text@),
{
    proof {
        lemma_smallest_stock_router(tools@);
    }
    let mut s = String::new();
    s.append("Slot ");
    s.append(width_text);
    match smallest_stock_router_index(tools) {
        Some(i) => {
            s.append(" is narrower than the smallest router in stock (");
            s.append(tools[i].diameter_text.as_str());
            s.append("), so it cannot be milled. Stock a router no larger than ");
            s.append(width_text);
            s.append(", or set this step's oblong strategy to drill only.");
        },
        None => {
            s.append(" cannot be milled — no router in stock.");
        },
    }
    s
}

fn first_fitting_index(tools: &Vec<StockTool>, idx: &Vec<usize>, width: i64) -> (r: Option<usize>)
    requires
        forall|k: int| 0 <= k < idx@.len() ==> #[trigger] idx@[k] < tools@.len(),
    ensures
        r is None <==> first_fitting(tools@, idx@.map_values(|x: usize| x as int), width) is None,
        r matches Some(j) ==> first_fitting(tools@, idx@.map_values(|x: usize| x as int), width) == Some(
            j as int,
        ) && j < tools@.len(),
{
    let ghost all = idx@.map_values(|x: usize| x as int);
    let mut k: usize = 0;
    proof {
        assert(all.skip(0) =~= all);
    }
    while k < idx.len()
        invariant
            k <= idx@.len(),
            all == idx@.map_values(|x: usize| x as int),
            forall|m: int| 0 <= m < idx@.len() ==> #[trigger] idx@[m] < tools@.len(),
            first_fitting(tools@, all, width) == first_fitting(tools@, all.skip(k as int), width),
        decreases idx@.len() - k,
    {
        proof {
            assert(all.skip(k as int).drop_first() =~= all.skip(k + 1));
            assert(all.skip(k as int)[0] == idx@[k as int] as int);
        }
        let j = idx[k];
        if tools[j].diameter_um <= width {
            return Some(j);
        }
        k += 1;
    }
    None
}

/// The router that mills a slot `width` micrometres across: the **largest** cutter
/// that still fits, with a toolset-fixed router that fits preferred over any in stock.
pub fn pick_slot_router(tools: &Vec<StockTool>, toolset: &ToolsetProfile, width: i64) -> (r: Option<String>)
    ensures
        text_of(r) == id_of(tools@, slot_router_spec(tools@, toolset.slots@, width)),
{
    proof {
        lemma_fixed_routers_are_routers(tools@, toolset.slots@);
        lemma_largest_fitting_stock_router(tools@, width);
    }
    let fixed = fixed_routers(tools, toolset);
    proof {
        assert(fixed@.map_values(|x: usize| x as int) =~= fixed_routers_spec(tools@, toolset.slots@));
    }
    match first_fitting_index(tools, &fixed, width) {
        Some(j) => Some(tools[j].id.clone()),
        None => match largest_fitting_index(tools, width) {
            Some(i) => Some(tools[i].id.clone()),
            None => None,
        },
    }
}


// ---------------------------------------------------------------------------
// Locating pins
// ---------------------------------------------------------------------------

/// How a locating-pin hole gets made.
#[derive(Clone, Debug, PartialEq)]
pub enum PinTool {
    /// A drill of exactly the pin diameter.
    Drill { id: String, diameter_um: i64 },
    /// No exact drill exists, so the hole is milled to size by spiralling a router.
    Router { id: String, diameter_um: i64 },
}

impl PinTool {
    /// The stock id of the tool.
    pub fn id(&self) -> (r: &str)
        ensures
            r@ == pin_view(*self).1,
    {
        match self {
            PinTool::Drill { id, .. } => id.as_str(),
            PinTool::Router { id, .. } => id.as_str(),
        }
    }
}

/// A pin tool by its parts: whether it is a drill, its id and its diameter.
pub open spec fn pin_view(p: PinTool) -> (bool, Seq<char>, i64) {
    match p {
        PinTool::Drill { id, diameter_um } => (true, id@, diameter_um),
        PinTool::Router { id, diameter_um } => (false, id@, diameter_um),
    }
}

/// A drill bit of exactly the wanted diameter.
pub open spec fn is_exact_drill(t: StockTool, wanted: i64) -> bool {
    t.kind == ToolKind::Drillbit && t.diameter_um == wanted
}

/// The first toolset slot (in slot order) whose tool — the first stock tool with its
/// id — is an exact drill.
pub open spec fn fixed_exact_drill(tools: Seq<StockTool>, slots: Seq<(u8, RackSlot)>, wanted: i64) -> Option<int>
    decreases slots.len(),
{
    if slots.len() == 0 {
        None
    } else {
        let here = match slots[0].1.tool_id {
            Some(id) => match find_tool(tools, id@) {
                Some(j) => if is_exact_drill(tools[j], wanted) { Some(j) } else { None },
                None => None,
            },
            None => None,
        };
        match here {
            Some(j) => Some(j),
            None => fixed_exact_drill(tools, slots.drop_first(), wanted),
        }
    }
}

/// The first in-stock exact drill.
pub open spec fn stock_exact_drill(tools: Seq<StockTool>, wanted: i64) -> Option<int>
    decreases tools.len(),
{
    if tools.len() == 0 {
        None
    } else if tools[0].status == ToolStatus::InStock && is_exact_drill(tools[0], wanted) {
        Some(0)
    } else {
        match stock_exact_drill(tools.drop_first(), wanted) {
            Some(i) => Some(i + 1),
            None => None,
        }
    }
}

/// The tool that makes a locating-pin hole of `wanted` micrometres: an exact drill
/// (toolset-fixed first), else the largest router that fits (milled to size), else none.
pub open spec fn pin_tool_spec(tools: Seq<StockTool>, slots: Seq<(u8, RackSlot)>, wanted: i64) -> Option<
    (bool, Seq<char>, i64),
> {
    let drill = match fixed_exact_drill(tools, slots, wanted) {
        Some(j) => Some(j),
        None => stock_exact_drill(tools, wanted),
    };
    match drill {
        Some(j) => Some((true, tools[j].id@, tools[j].diameter_um)),
        None => match slot_router_spec(tools, slots, wanted) {
            Some(j) => Some(
                (
                    false,
                    tools[j].id@,
                    match find_tool(tools, tools[j].id@) {
                        Some(k) => tools[k].diameter_um,
                        None => wanted,
                    },
                ),
            ),
            None => None,
        },
    }
}

proof fn lemma_fixed_exact_drill(tools: Seq<StockTool>, slots: Seq<(u8, RackSlot)>, wanted: i64)
    ensures
        fixed_exact_drill(tools, slots, wanted) matches Some(j) ==> 0 <= j < tools.len() && is_exact_drill(
            tools[j],
            wanted,
        ),
    decreases slots.len(),
{
    if slots.len() > 0 {
        lemma_fixed_exact_drill(tools, slots.drop_first(), wanted);
        if let Some(id) = slots[0].1.tool_id {
            lemma_find_tool(tools, id@);
        }
    }
}

proof fn lemma_stock_exact_drill(tools: Seq<StockTool>, wanted: i64)
    ensures
        stock_exact_drill(tools, wanted) matches Some(j) ==> 0 <= j < tools.len() && is_exact_drill(tools[j], wanted)
            && tools[j].status == ToolStatus::InStock && forall|k: int|
            0 <= k < j ==> !(tools[k].status == ToolStatus::InStock && is_exact_drill(tools[k], wanted)),
        stock_exact_drill(tools, wanted) is None ==> forall|k: int|
            0 <= k < tools.len() ==> !(tools[k].status == ToolStatus::InStock && is_exact_drill(tools[k], wanted)),
    decreases tools.len(),
{
    if tools.len() > 0 {
        lemma_stock_exact_drill(tools.drop_first(), wanted);
        assert forall|k: int| 1 <= k < tools.len() implies tools[k] == tools.drop_first()[k - 1] by {}
    }
}

proof fn lemma_stock_exact_first(tools: Seq<StockTool>, wanted: i64, i: int)
    requires
        0 <= i < tools.len(),
        tools[i].status == ToolStatus::InStock && is_exact_drill(tools[i], wanted),
        forall|k: int| 0 <= k < i ==> !(tools[k].status == ToolStatus::InStock && is_exact_drill(tools[k], wanted)),
    ensures
        stock_exact_drill(tools, wanted) == Some(i),
    decreases i,
{
    if i > 0 {
        assert(tools.drop_first()[i - 1] == tools[i]);
        assert forall|k: int| 0 <= k < i - 1 implies !(tools.drop_first()[k].status == ToolStatus::InStock
            && is_exact_drill(tools.drop_first()[k], wanted)) by {
            assert(tools.drop_first()[k] == tools[k + 1]);
        }
        lemma_stock_exact_first(tools.drop_first(), wanted, i - 1);
    }
}

/// **A registration hole is never made to a nearly-right size.** A drill is chosen
/// only at exactly the pin diameter; otherwise the hole is milled by a router no wider
/// than the pin.
pub proof fn lemma_pin_hole_is_exact(tools: Seq<StockTool>, slots: Seq<(u8, RackSlot)>, wanted: i64)
    ensures
        pin_tool_spec(tools, slots, wanted) matches Some(p) ==> (p.0 ==> p.2 == wanted && exists|j: int|
            0 <= j < tools.len() && tools[j].id@ == p.1 && is_exact_drill(#[trigger] tools[j], wanted)),
        pin_tool_spec(tools, slots, wanted) matches Some(p) ==> (!p.0 ==> exists|j: int|
            0 <= j < tools.len() && tools[j].id@ == p.1 && is_router_kind(#[trigger] tools[j].kind)
                && tools[j].diameter_um <= wanted),
        pin_tool_spec(tools, slots, wanted) is None ==> forall|j: int|
            0 <= j < tools.len() ==> !(tools[j].status == ToolStatus::InStock && is_exact_drill(#[trigger] tools[j], wanted)),
{
    lemma_fixed_exact_drill(tools, slots, wanted);
    lemma_stock_exact_drill(tools, wanted);
    lemma_slot_router_fits(tools, slots, wanted);
    match fixed_exact_drill(tools, slots, wanted) {
        Some(j) => {
            assert(is_exact_drill(tools[j], wanted));
        },
        None => match stock_exact_drill(tools, wanted) {
            Some(j) => {
                assert(is_exact_drill(tools[j], wanted));
            },
            None => match slot_router_spec(tools, slots, wanted) {
                Some(j) => {
                    assert(is_router_kind(tools[j].kind));
                },
                None => {},
            },
        },
    }
}

fn is_exact(tool: &StockTool, wanted: i64) -> (r: bool)
    ensures
        r == is_exact_drill(*tool, wanted),
{
    tool.kind == ToolKind::Drillbit && tool.diameter_um == wanted
}

/// The tool that makes a locating-pin hole of `diameter_um`: a drill of **exactly**
/// the pin diameter (one fixed in the toolset first), else the largest router that
/// fits, which mills the hole to size, else `None` and the step is refused.
pub fn pick_pin_tool(tools: &Vec<StockTool>, toolset: &ToolsetProfile, diameter_um: i64) -> (r: Option<PinTool>)
    ensures
        match r {
            Some(p) => pin_tool_spec(tools@, toolset.slots@, diameter_um) == Some(pin_view(p)),
            None => pin_tool_spec(tools@, toolset.slots@, diameter_um) is None,
        },
{
    let ghost slots = toolset.slots@;
    proof {
        lemma_fixed_exact_drill(tools@, slots, diameter_um);
        assert(slots.skip(0) =~= slots);
    }
    // Fixed in the toolset first: it is already in the rack, so it costs no slot.
    let mut i: usize = 0;
    while i < toolset.slots.len()
        invariant
            i <= slots.len(),
            slots == toolset.slots@,
            fixed_exact_drill(tools@, slots, diameter_um) == fixed_exact_drill(tools@, slots.skip(i as int), diameter_um),
        decreases slots.len() - i,
    {
        proof {
            assert(slots.skip(i as int).drop_first() =~= slots.skip(i + 1));
            assert(slots.skip(i as int)[0] == slots[i as int]);
        }
        match &toolset.slots[i].1.tool_id {
            Some(id) => {
                match find_tool_index(tools, id.as_str()) {
                    Some(j) => {
                        proof {
                            lemma_find_tool(tools@, id@);
                        }
                        if is_exact(&tools[j], diameter_um) {
                            return Some(PinTool::Drill { id: tools[j].id.clone(), diameter_um: tools[j].diameter_um });
                        }
                    },
                    None => {},
                }
            },
            None => {},
        }
        i += 1;
    }
    proof {
        assert(slots.skip(i as int).len() == 0);
        lemma_stock_exact_drill(tools@, diameter_um);
    }
    let mut k: usize = 0;
    while k < tools.len()
        invariant
            k <= tools@.len(),
            fixed_exact_drill(tools@, toolset.slots@, diameter_um) is None,
            forall|m: int| 0 <= m < k ==> !(tools@[m].status == ToolStatus::InStock && is_exact_drill(tools@[m], diameter_um)),
        decreases tools@.len() - k,
    {
        if tools[k].status == ToolStatus::InStock && is_exact(&tools[k], diameter_um) {
            proof {
                lemma_stock_exact_first(tools@, diameter_um, k as int);
            }
            return Some(PinTool::Drill { id: tools[k].id.clone(), diameter_um: tools[k].diameter_um });
        }
        k += 1;
    }
    // Milled to size instead. Largest that fits, as for a slot.
    proof {
        lemma_slot_router_fits(tools@, slots, diameter_um);
    }
    match pick_slot_router(tools, toolset, diameter_um) {
        Some(id) => {
            proof {
                lemma_find_tool(tools@, id@);
            }
            let diameter = match find_tool_index(tools, id.as_str()) {
                Some(j) => tools[j].diameter_um,
                None => diameter_um,
            };
            Some(PinTool::Router { id, diameter_um: diameter })
        },
        None => None,
    }
}

// ---------------------------------------------------------------------------
// The routers of a step
// ---------------------------------------------------------------------------

/// Which router each of a step's routed features needs.
pub struct RouterPlan {
    /// The board-outline router, when the step routes the outline.
    pub outline: Option<String>,
    /// Slot width (µm) → the router that mills it, one entry per distinct width.
    pub by_slot_width_um: Vec<(i64, String)>,
    /// Slot widths no available router is small enough to mill.
    pub unroutable_widths: Vec<i64>,
}

/// The width table of a plan, by text.
pub open spec fn width_table(v: Seq<(i64, String)>) -> Seq<(i64, Seq<char>)> {
    v.map_values(|e: (i64, String)| (e.0, e.1@))
}

/// Whether a width has already been decided.
pub open spec fn width_seen(by: Seq<(i64, Seq<char>)>, unroutable: Seq<i64>, w: i64) -> bool {
    (exists|k: int| 0 <= k < by.len() && (#[trigger] by[k]).0 == w) || unroutable.contains(w)
}

/// One router lookup per distinct slot width, in order of first appearance.
pub open spec fn plan_widths(tools: Seq<StockTool>, slots: Seq<(u8, RackSlot)>, groups: Seq<HoleGroup>) -> (
    Seq<(i64, Seq<char>)>,
    Seq<i64>,
)
    decreases groups.len(),
{
    if groups.len() == 0 {
        (Seq::empty(), Seq::empty())
    } else {
        let (by, un) = plan_widths(tools, slots, groups.drop_last());
        match groups.last().minor_um {
            None => (by, un),
            Some(w) => if width_seen(by, un, w) {
                (by, un)
            } else {
                match slot_router_spec(tools, slots, w) {
                    Some(j) => (by.push((w, tools[j].id@)), un),
                    None => (by, un.push(w)),
                }
            },
        }
    }
}

/// No width is planned twice: the routed widths are distinct, the unroutable widths are
/// distinct, and no width is both routed and unroutable.
pub open spec fn widths_distinct(by: Seq<(i64, Seq<char>)>, un: Seq<i64>) -> bool {
    &&& forall|i: int, j: int| 0 <= i < j < by.len() ==> (#[trigger] by[i]).0 != (#[trigger] by[j]).0
    &&& forall|i: int, j: int| 0 <= i < j < un.len() ==> #[trigger] un[i] != #[trigger] un[j]
    &&& forall|i: int, j: int| 0 <= i < by.len() && 0 <= j < un.len() ==> (#[trigger] by[i]).0 != #[trigger] un[j]
}

/// Whether `w` is one of the slot widths of the groups.
pub open spec fn is_slot_width_of(groups: Seq<HoleGroup>, w: i64) -> bool {
    exists|g: int| 0 <= g < groups.len() && (#[trigger] groups[g]).minor_um == Some(w)
}

/// Whether `w` is planned: routed or reported unroutable.
pub open spec fn is_planned(by: Seq<(i64, Seq<char>)>, un: Seq<i64>, w: i64) -> bool {
    (exists|k: int| 0 <= k < by.len() && (#[trigger] by[k]).0 == w) || (exists|k: int|
        0 <= k < un.len() && #[trigger] un[k] == w)
}

proof fn lemma_plan_widths_step(tools: Seq<StockTool>, slots: Seq<(u8, RackSlot)>, groups: Seq<HoleGroup>)
    requires
        groups.len() > 0,
    ensures
        ({
            let (by0, un0) = plan_widths(tools, slots, groups.drop_last());
            let (by, un) = plan_widths(tools, slots, groups);
            &&& by0.len() <= by.len() && un0.len() <= un.len()
            &&& forall|k: int| 0 <= k < by0.len() ==> by[k] == by0[k]
            &&& forall|k: int| 0 <= k < un0.len() ==> un[k] == un0[k]
        }),
{
}

/// **Each slot width is looked up once.** Of the widths a plan names, no two routed
/// entries share a width, no unroutable width is reported twice, and none is both; every
/// slot width of the groups is planned, every planned width is a slot width of some
/// group, a routed width names the router chosen for it, and an unroutable width has
/// no router that fits.
pub proof fn lemma_plan_widths_once_each(tools: Seq<StockTool>, slots: Seq<(u8, RackSlot)>, groups: Seq<HoleGroup>)
    ensures
        widths_distinct(plan_widths(tools, slots, groups).0, plan_widths(tools, slots, groups).1),
        forall|w: i64| is_slot_width_of(groups, w) <==> is_planned(
            plan_widths(tools, slots, groups).0,
            plan_widths(tools, slots, groups).1,
            w,
        ),
        forall|k: int|
            0 <= k < plan_widths(tools, slots, groups).0.len() ==> (slot_router_spec(
                tools,
                slots,
                (#[trigger] plan_widths(tools, slots, groups).0[k]).0,
            ) matches Some(j) && plan_widths(tools, slots, groups).0[k].1 == tools[j].id@),
        forall|k: int|
            0 <= k < plan_widths(tools, slots, groups).1.len() ==> slot_router_spec(
                tools,
                slots,
                #[trigger] plan_widths(tools, slots, groups).1[k],
            ) is None,
    decreases groups.len(),
{
    if groups.len() > 0 {
        let prefix = groups.drop_last();
        lemma_plan_widths_once_each(tools, slots, prefix);
        lemma_plan_widths_step(tools, slots, groups);
        let (by0, un0) = plan_widths(tools, slots, prefix);
        let (by, un) = plan_widths(tools, slots, groups);
        let last = groups.last();
        assert forall|w: i64| is_slot_width_of(groups, w) <==> is_planned(by, un, w) by {
            if is_slot_width_of(groups, w) {
                let g = choose|g: int| 0 <= g < groups.len() && (#[trigger] groups[g]).minor_um == Some(w);
                if g < groups.len() - 1 {
                    assert(prefix[g] == groups[g]);
                    assert(is_slot_width_of(prefix, w));
                    assert(is_planned(by0, un0, w));
                    if exists|k: int| 0 <= k < by0.len() && (#[trigger] by0[k]).0 == w {
                        let k = choose|k: int| 0 <= k < by0.len() && (#[trigger] by0[k]).0 == w;
                        assert(by[k] == by0[k]);
                    } else {
                        let k = choose|k: int| 0 <= k < un0.len() && #[trigger] un0[k] == w;
                        assert(un[k] == un0[k]);
                    }
                } else {
                    if width_seen(by0, un0, w) {
                        if exists|k: int| 0 <= k < by0.len() && (#[trigger] by0[k]).0 == w {
                            let k = choose|k: int| 0 <= k < by0.len() && (#[trigger] by0[k]).0 == w;
                            assert(by[k] == by0[k]);
                        } else {
                            let k = choose|k: int| 0 <= k < un0.len() && un0[k] == w;
                            assert(un0[k] == w);
                            assert(un[k] == un0[k]);
                        }
                    } else {
                        if by.len() > by0.len() {
                            assert(by[by0.len() as int].0 == w);
                        } else {
                            assert(un[un0.len() as int] == w);
                        }
                    }
                }
            }
            if is_planned(by, un, w) {
                let in_prefix = is_planned(by0, un0, w);
                if in_prefix {
                    assert(is_slot_width_of(prefix, w));
                    let g = choose|g: int| 0 <= g < prefix.len() && (#[trigger] prefix[g]).minor_um == Some(w);
                    assert(groups[g] == prefix[g]);
                } else {
                    if exists|k: int| 0 <= k < by.len() && (#[trigger] by[k]).0 == w {
                        let k = choose|k: int| 0 <= k < by.len() && (#[trigger] by[k]).0 == w;
                        if k < by0.len() {
                            assert(by0[k] == by[k]);
                        }
                        assert(k == by0.len());
                    } else {
                        let k = choose|k: int| 0 <= k < un.len() && #[trigger] un[k] == w;
                        if k < un0.len() {
                            assert(un0[k] == un[k]);
                        }
                        assert(k == un0.len());
                    }
                    assert(last.minor_um == Some(w));
                    assert(groups[groups.len() - 1] == last);
                }
            }
        }
        assert forall|i: int, j: int| 0 <= i < by.len() && 0 <= j < un.len() implies (#[trigger] by[i]).0
            != #[trigger] un[j] by {
            if i < by0.len() && j < un0.len() {
                assert(by[i] == by0[i] && un[j] == un0[j]);
            } else if i < by0.len() {
                assert(by[i] == by0[i]);
            } else if j < un0.len() {
                assert(un[j] == un0[j]);
            }
        }
        assert forall|i: int, j: int| 0 <= i < j < by.len() implies (#[trigger] by[i]).0 != (#[trigger] by[j]).0 by {
            assert(by[i] == by0[i]);
            if j < by0.len() {
                assert(by[j] == by0[j]);
            }
        }
        assert forall|i: int, j: int| 0 <= i < j < un.len() implies #[trigger] un[i] != #[trigger] un[j] by {
            assert(un[i] == un0[i]);
            if j < un0.len() {
                assert(un[j] == un0[j]);
            }
        }
        assert forall|k: int| 0 <= k < by.len() implies (slot_router_spec(tools, slots, (#[trigger] by[k]).0) matches Some(
            j,
        ) && by[k].1 == tools[j].id@) by {
            if k < by0.len() {
                assert(by[k] == by0[k]);
            }
        }
        assert forall|k: int| 0 <= k < un.len() implies slot_router_spec(tools, slots, #[trigger] un[k]) is None by {
            if k < un0.len() {
                assert(un[k] == un0[k]);
            }
        }
    }
}

/// The first entry of a width table for `w`.
pub open spec fn lookup_width(by: Seq<(i64, Seq<char>)>, w: i64) -> Option<Seq<char>>
    decreases by.len(),
{
    if by.len() == 0 {
        None
    } else if by[0].0 == w {
        Some(by[0].1)
    } else {
        lookup_width(by.drop_first(), w)
    }
}

/// The text of every router a plan names.
pub open spec fn plan_router_texts(plan: RouterPlan) -> Set<Seq<char>> {
    let by = plan.widths();
    let widths = Set::new(|t: Seq<char>| exists|k: int| 0 <= k < by.len() && (#[trigger] by[k]).1 == t);
    match plan.outline {
        Some(o) => widths.insert(o@),
        None => widths,
    }
}

impl RouterPlan {
    /// The plan's width table, by text.
    pub open spec fn widths(&self) -> Seq<(i64, Seq<char>)> {
        width_table(self.by_slot_width_um@)
    }

    /// The router milling this group's slot — `None` for a round hole, and also for a
    /// slot too narrow for every available cutter.
    pub fn for_group(&self, group: &HoleGroup) -> (r: Option<&str>)
        ensures
            match group.minor_um {
                None => r is None,
                Some(w) => match lookup_width(self.widths(), w) {
                    Some(t) => r matches Some(x) && x@ == t,
                    None => r is None,
                },
            },
    {
        let width = match group.minor_um {
            Some(w) => w,
            None => return None,
        };
        let ghost by = width_table(self.by_slot_width_um@);
        proof {
            assert(by.skip(0) =~= by);
        }
        let mut k: usize = 0;
        while k < self.by_slot_width_um.len()
            invariant
                k <= by.len(),
                by == width_table(self.by_slot_width_um@),
                group.minor_um == Some(width),
                lookup_width(by, width) == lookup_width(by.skip(k as int), width),
            decreases by.len() - k,
        {
            proof {
                assert(by.skip(k as int).drop_first() =~= by.skip(k + 1));
                assert(by.skip(k as int)[0] == by[k as int]);
            }
            if self.by_slot_width_um[k].0 == width {
                return Some(self.by_slot_width_um[k].1.as_str());
            }
            k += 1;
        }
        None
    }

    /// Every router the rack must hold — the slot routers and the outline router —
    /// each once, in increasing text order.
    pub fn mandatory_ids(&self) -> (r: Vec<String>)
        ensures
            strictly_sorted(texts(r@)),
            texts(r@).to_set() == plan_router_texts(*self),
    {
        let ghost by = width_table(self.by_slot_width_um@);
        let mut r: Vec<String> = Vec::new();
        proof {
            assert(texts(r@).to_set() =~= Set::<Seq<char>>::empty());
        }
        let mut k: usize = 0;
        while k < self.by_slot_width_um.len()
            invariant
                k <= by.len(),
                by == width_table(self.by_slot_width_um@),
                strictly_sorted(texts(r@)),
                texts(r@).to_set() == Set::new(|t: Seq<char>| exists|m: int| 0 <= m < k && (#[trigger] by[m]).1 == t),
            decreases by.len() - k,
        {
            let ghost before = texts(r@).to_set();
            insert_sorted(&mut r, self.by_slot_width_um[k].1.clone());
            proof {
                assert(by[k as int].1 == self.by_slot_width_um@[k as int].1@);
                assert(texts(r@).to_set() =~= Set::new(|t: Seq<char>| exists|m: int| 0 <= m < k + 1 && (#[trigger] by[m]).1 == t)) by {
                    assert forall|t: Seq<char>| (exists|m: int| 0 <= m < k + 1 && (#[trigger] by[m]).1 == t) implies before.insert(by[k as int].1).contains(t) by {
                        let m = choose|m: int| 0 <= m < k + 1 && (#[trigger] by[m]).1 == t;
                        if m < k {
                            assert(before.contains(t));
                        }
                    }
                }
            }
            k += 1;
        }
        match &self.outline {
            Some(o) => {
                insert_sorted(&mut r, o.clone());
            },
            None => {},
        }
        proof {
            assert(texts(r@).to_set() =~= plan_router_texts(*self));
        }
        r
    }
}

fn width_seen_exec(by: &Vec<(i64, String)>, unroutable: &Vec<i64>, w: i64) -> (r: bool)
    ensures
        r == width_seen(width_table(by@), unroutable@, w),
{
    let mut k: usize = 0;
    while k < by.len()
        invariant
            k <= by@.len(),
            forall|m: int| 0 <= m < k ==> by@[m].0 != w,
        decreases by@.len() - k,
    {
        if by[k].0 == w {
            assert(width_table(by@)[k as int].0 == w);
            return true;
        }
        k += 1;
    }
    let mut k: usize = 0;
    while k < unroutable.len()
        invariant
            k <= unroutable@.len(),
            forall|m: int| 0 <= m < by@.len() ==> by@[m].0 != w,
            forall|m: int| 0 <= m < k ==> unroutable@[m] != w,
        decreases unroutable@.len() - k,
    {
        if unroutable[k] == w {
            assert(unroutable@[k as int] == w);
            return true;
        }
        k += 1;
    }
    assert(!(exists|m: int| 0 <= m < width_table(by@).len() && (#[trigger] width_table(by@)[m]).0 == w));
    false
}

/// Resolves a step's routing tools: the outline router (when it routes the outline)
/// and one router per distinct slot width (when its oblong strategy mills slots).
pub fn plan_routers(
    tools: &Vec<StockTool>,
    toolset: &ToolsetProfile,
    groups: &Vec<HoleGroup>,
    has_route: bool,
    oblong_routes: bool,
) -> (plan: RouterPlan)
    ensures
        text_of(plan.outline) == (if has_route {
            id_of(tools@, outline_router_spec(tools@, toolset.slots@))
        } else {
            None
        }),
        plan.widths() == (if oblong_routes {
            plan_widths(tools@, toolset.slots@, groups@).0
        } else {
            Seq::empty()
        }),
        plan.unroutable_widths@ == (if oblong_routes {
            plan_widths(tools@, toolset.slots@, groups@).1
        } else {
            Seq::empty()
        }),
        widths_distinct(plan.widths(), plan.unroutable_widths@),
{
    proof {
        lemma_plan_widths_once_each(tools@, toolset.slots@, groups@);
    }
    let outline = if has_route { pick_outline_router(tools, toolset) } else { None };
    let mut by: Vec<(i64, String)> = Vec::new();
    let mut unroutable: Vec<i64> = Vec::new();
    proof {
        assert(width_table(by@) =~= Seq::<(i64, Seq<char>)>::empty());
    }
    if oblong_routes {
        let mut i: usize = 0;
        while i < groups.len()
            invariant
                i <= groups@.len(),
                (width_table(by@), unroutable@) == plan_widths(tools@, toolset.slots@, groups@.take(i as int)),
            decreases groups@.len() - i,
        {
            proof {
                assert(groups@.take(i + 1).drop_last() =~= groups@.take(i as int));
                assert(groups@.take(i + 1).last() == groups@[i as int]);
            }
            match groups[i].minor_um {
                None => {},
                Some(width) => {
                    if !width_seen_exec(&by, &unroutable, width) {
                        match pick_slot_router(tools, toolset, width) {
                            Some(id) => {
                                let ghost old_by = by@;
                                by.push((width, id));
                                assert(width_table(by@) =~= width_table(old_by).push((width, id@)));
                            },
                            None => {
                                unroutable.push(width);
                            },
                        }
                    }
                },
            }
            i += 1;
        }
        proof {
            assert(groups@.take(groups@.len() as int) =~= groups@);
        }
    }
    RouterPlan { outline, by_slot_width_um: by, unroutable_widths: unroutable }
}

} // verus!
