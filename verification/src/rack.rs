//! The cross-step rack schedule: which tool sits in which physical slot for each
//! machining step, and whether the operator must change that slot before the step.
//!
//! A dynamic tool keeps a **stable slot** — loaded once and kept afterwards — so
//! inter-step changes are minimised. Empty spare slots are used before any tool is
//! evicted; only when every spare slot holds a still-needed tool is one reused.
//! Fixed (toolset-pinned) slots never change.

use vstd::prelude::*;
use std::collections::{BTreeMap, BTreeSet};

use crate::model::{tool_label, tool_label_spec, RackSlot, StockTool, ToolsetProfile};
use crate::text::{decimal, push_decimal};

verus! {

// ---------------------------------------------------------------------------
// The model: spare slots hold tool ids (by their text)
// ---------------------------------------------------------------------------

/// The contents of the spare slots: slot number → tool id.
pub type Loaded = Map<u8, Seq<char>>;

/// Whether some slot of `l` holds tool `t`.
pub open spec fn holds_tool(l: Loaded, t: Seq<char>) -> bool {
    exists|k: u8| #[trigger] l.contains_key(k) && l[k] == t
}

/// The first spare slot (in the given order) that holds nothing.
pub open spec fn first_empty(spare: Seq<u8>, l: Loaded) -> Option<u8>
    decreases spare.len(),
{
    if spare.len() == 0 {
        None
    } else if !l.contains_key(spare[0]) {
        Some(spare[0])
    } else {
        first_empty(spare.drop_first(), l)
    }
}

/// The first spare slot (in the given order) whose tool is not needed.
pub open spec fn first_evictable(spare: Seq<u8>, l: Loaded, needed: Set<Seq<char>>) -> Option<u8>
    decreases spare.len(),
{
    if spare.len() == 0 {
        None
    } else if l.contains_key(spare[0]) && !needed.contains(l[spare[0]]) {
        Some(spare[0])
    } else {
        first_evictable(spare.drop_first(), l, needed)
    }
}

/// The slot a tool that must be loaded goes to: an empty slot first (nothing is
/// disturbed), else one whose tool is not needed this step; `None` on overflow.
pub open spec fn pick_slot_spec(spare: Seq<u8>, l: Loaded, needed: Set<Seq<char>>) -> Option<u8> {
    match first_empty(spare, l) {
        Some(s) => Some(s),
        None => first_evictable(spare, l, needed),
    }
}

/// The tools a step needs in the spare slots: those it uses that are not fixed.
pub open spec fn step_needed(tools: Seq<Seq<char>>, fixed: Set<Seq<char>>) -> Set<Seq<char>> {
    Set::new(|t: Seq<char>| tools.contains(t) && !fixed.contains(t))
}

/// Loads the step's tools in order into the spare slots; returns the new contents and
/// the slots that changed.
pub open spec fn load_tools(
    spare: Seq<u8>,
    fixed: Set<Seq<char>>,
    needed: Set<Seq<char>>,
    tools: Seq<Seq<char>>,
    l: Loaded,
) -> (Loaded, Set<u8>)
    decreases tools.len(),
{
    if tools.len() == 0 {
        (l, Set::empty())
    } else {
        let (l1, c1) = load_tools(spare, fixed, needed, tools.drop_last(), l);
        let t = tools.last();
        if fixed.contains(t) || holds_tool(l1, t) {
            (l1, c1)
        } else {
            match pick_slot_spec(spare, l1, needed) {
                Some(s) => (l1.insert(s, t), c1.insert(s)),
                None => (l1, c1),
            }
        }
    }
}

/// One step of the schedule, from the rack as the previous step left it.
pub open spec fn after_step(spare: Seq<u8>, fixed: Set<Seq<char>>, tools: Seq<Seq<char>>, l: Loaded) -> (
    Loaded,
    Set<u8>,
) {
    load_tools(spare, fixed, step_needed(tools, fixed), tools, l)
}

/// The whole schedule: per step, the spare-slot contents and the slots changed.
pub open spec fn schedule(spare: Seq<u8>, fixed: Set<Seq<char>>, steps: Seq<Seq<Seq<char>>>) -> Seq<
    (Loaded, Set<u8>),
>
    decreases steps.len(),
{
    if steps.len() == 0 {
        Seq::empty()
    } else {
        let prev = schedule(spare, fixed, steps.drop_last());
        let l = if prev.len() == 0 { Map::empty() } else { prev.last().0 };
        prev.push(after_step(spare, fixed, steps.last(), l))
    }
}

// ---------------------------------------------------------------------------
// Views of the executable data
// ---------------------------------------------------------------------------

/// A slot table indexed by slot number, as a map of occupied slots.
pub open spec fn table_view(t: Seq<Option<String>>) -> Loaded {
    Map::new(|k: u8| (k as int) < t.len() && t[k as int] is Some, |k: u8| t[k as int]->0@)
}

/// A `BTreeMap` of tool ids, by the ids' text.
pub open spec fn loaded_view(m: Map<u8, String>) -> Loaded {
    m.map_values(|s: String| s@)
}

/// The tool ids of a sequence of strings, by their text.
pub open spec fn ids_view(v: Seq<String>) -> Seq<Seq<char>> {
    v.map_values(|s: String| s@)
}

/// The tools each step of a schedule input uses.
pub open spec fn steps_view(steps: Seq<(usize, String, Vec<String>)>) -> Seq<Seq<Seq<char>>> {
    steps.map_values(|s: (usize, String, Vec<String>)| ids_view(s.2@))
}

// ---------------------------------------------------------------------------
// Executable helpers
// ---------------------------------------------------------------------------

fn contains_id(ids: &Vec<String>, t: &String) -> (b: bool)
    ensures
        b == ids_view(ids@).contains(t@),
{
    let mut i: usize = 0;
    while i < ids.len()
        invariant
            i <= ids.len(),
            forall|j: int| 0 <= j < i ==> ids@[j]@ != t@,
        decreases ids.len() - i,
    {
        if ids[i] == *t {
            proof {
                assert(ids_view(ids@)[i as int] == t@);
            }
            return true;
        }
        i += 1;
    }
    proof {
        if ids_view(ids@).contains(t@) {
            let j = choose|j: int| 0 <= j < ids_view(ids@).len() && ids_view(ids@)[j] == t@;
            assert(ids@[j]@ == t@);
        }
    }
    false
}

fn table_holds(table: &Vec<Option<String>>, t: &String) -> (b: bool)
    requires
        table@.len() == 256,
    ensures
        b == holds_tool(table_view(table@), t@),
{
    let mut k: usize = 0;
    while k < 256
        invariant
            k <= 256,
            table@.len() == 256,
            forall|j: int| 0 <= j < k ==> !(table@[j] is Some && table@[j]->0@ == t@),
        decreases 256 - k,
    {
        match &table[k] {
            Some(s) => {
                if *s == *t {
                    proof {
                        let key = k as u8;
                        assert(table_view(table@).contains_key(key));
                        assert(table_view(table@)[key] == t@);
                    }
                    return true;
                }
            },
            None => {},
        }
        k += 1;
    }
    proof {
        if holds_tool(table_view(table@), t@) {
            let key = choose|key: u8|
                #[trigger] table_view(table@).contains_key(key) && table_view(table@)[key] == t@;
            assert(table@[key as int] is Some && table@[key as int]->0@ == t@);
        }
    }
    false
}

/// Picks a spare slot for a tool that must be loaded: an empty slot first (so nothing
/// is disturbed), else a slot whose current tool is not needed this step (safe to
/// evict). `None` when every spare slot holds a still-needed tool (capacity overflow).
pub fn pick_slot(spare_slots: &[u8], table: &Vec<Option<String>>, step_tools: &Vec<String>, fixed: &Vec<String>) -> (r: Option<u8>)
    requires
        table@.len() == 256,
    ensures
        r == pick_slot_spec(
            spare_slots@,
            table_view(table@),
            step_needed(ids_view(step_tools@), ids_view(fixed@).to_set()),
        ),
{
    let ghost l = table_view(table@);
    let ghost needed = step_needed(ids_view(step_tools@), ids_view(fixed@).to_set());
    proof {
        assert(spare_slots@.skip(0) =~= spare_slots@);
    }
    let mut i: usize = 0;
    while i < spare_slots.len()
        invariant
            i <= spare_slots@.len(),
            table@.len() == 256,
            l == table_view(table@),
            first_empty(spare_slots@, l) == first_empty(spare_slots@.skip(i as int), l),
        decreases spare_slots.len() - i,
    {
        proof {
            assert(spare_slots@.skip(i as int).drop_first() =~= spare_slots@.skip(i + 1));
        }
        let s = spare_slots[i];
        if table[s as usize].is_none() {
            return Some(s);
        }
        i += 1;
    }
    proof {
        assert(spare_slots@.skip(i as int).len() == 0);
        assert(spare_slots@.skip(0) =~= spare_slots@);
    }
    let mut i: usize = 0;
    while i < spare_slots.len()
        invariant
            i <= spare_slots@.len(),
            table@.len() == 256,
            l == table_view(table@),
            needed == step_needed(ids_view(step_tools@), ids_view(fixed@).to_set()),
            first_empty(spare_slots@, l) is None,
            first_evictable(spare_slots@, l, needed) == first_evictable(
                spare_slots@.skip(i as int),
                l,
                needed,
            ),
        decreases spare_slots.len() - i,
    {
        proof {
            assert(spare_slots@.skip(i as int).drop_first() =~= spare_slots@.skip(i + 1));
        }
        let s = spare_slots[i];
        match &table[s as usize] {
            Some(t) => {
                let needed_now = contains_id(step_tools, t) && !contains_id(fixed, t);
                proof {
                    assert(l.contains_key(s));
                    assert(l[s] == t@);
                    assert(needed_now == needed.contains(t@));
                }
                if !needed_now {
                    return Some(s);
                }
            },
            None => {},
        }
        i += 1;
    }
    proof {
        assert(spare_slots@.skip(i as int).len() == 0);
    }
    None
}


fn empty_table() -> (t: Vec<Option<String>>)
    ensures
        t@.len() == 256,
        table_view(t@) == Map::<u8, Seq<char>>::empty(),
{
    let mut t: Vec<Option<String>> = Vec::new();
    let mut k: usize = 0;
    while k < 256
        invariant
            k <= 256,
            t@.len() == k,
            forall|j: int| 0 <= j < k ==> t@[j] is None,
        decreases 256 - k,
    {
        t.push(None);
        k += 1;
    }
    assert(table_view(t@) =~= Map::<u8, Seq<char>>::empty());
    t
}

fn table_to_map(table: &Vec<Option<String>>) -> (m: BTreeMap<u8, String>)
    requires
        table@.len() == 256,
    ensures
        loaded_view(m@) == table_view(table@),
{
    let mut m: BTreeMap<u8, String> = BTreeMap::new();
    let mut k: usize = 0;
    while k < 256
        invariant
            k <= 256,
            table@.len() == 256,
            forall|key: u8| #[trigger]
                m@.contains_key(key) <==> ((key as int) < k && table@[key as int] is Some),
            forall|key: u8| #[trigger]
                m@.contains_key(key) ==> m@[key]@ == table@[key as int]->0@,
        decreases 256 - k,
    {
        match &table[k] {
            Some(t) => {
                m.insert(k as u8, t.clone());
            },
            None => {},
        }
        k += 1;
    }
    assert(loaded_view(m@) =~= table_view(table@));
    m
}

/// Whether an executable snapshot is the model's state for that step.
pub open spec fn snapshot_matches(snap: (BTreeMap<u8, String>, BTreeSet<u8>), model: (Loaded, Set<u8>)) -> bool {
    &&& loaded_view(snap.0@) == model.0
    &&& snap.1@ == model.1
}

/// The core cross-step spare-slot schedule: for each step, the resulting spare-slot →
/// tool-id state and the set of slots changed that step. A tool already loaded is kept
/// in place; a new one takes an empty slot, or evicts one not needed this step. Fixed
/// tools are excluded (they never occupy a spare slot).
pub fn schedule_spare_slots(
    spare_slots: &[u8],
    fixed_tools: &Vec<String>,
    steps: &[(usize, String, Vec<String>)],
) -> (snapshots: Vec<(BTreeMap<u8, String>, BTreeSet<u8>)>)
    ensures
        snapshots@.len() == steps@.len(),
        forall|i: int|
            0 <= i < steps@.len() ==> snapshot_matches(
                #[trigger] snapshots@[i],
                schedule(spare_slots@, ids_view(fixed_tools@).to_set(), steps_view(steps@))[i],
            ),
{
    let ghost spare = spare_slots@;
    let ghost fixed = ids_view(fixed_tools@).to_set();
    let ghost all = steps_view(steps@);
    let mut table = empty_table();
    let mut snapshots: Vec<(BTreeMap<u8, String>, BTreeSet<u8>)> = Vec::new();
    let mut si: usize = 0;
    while si < steps.len()
        invariant
            si <= steps@.len(),
            table@.len() == 256,
            spare == spare_slots@,
            fixed == ids_view(fixed_tools@).to_set(),
            all == steps_view(steps@),
            snapshots@.len() == si,
            schedule(spare, fixed, all.take(si as int)).len() == si,
            forall|i: int|
                0 <= i < si ==> snapshot_matches(
                    #[trigger] snapshots@[i],
                    schedule(spare, fixed, all.take(si as int))[i],
                ),
            table_view(table@) == (if si == 0 {
                Map::<u8, Seq<char>>::empty()
            } else {
                schedule(spare, fixed, all.take(si as int)).last().0
            }),
        decreases steps@.len() - si,
    {
        let tools = &steps[si].2;
        let ghost l0 = table_view(table@);
        let ghost ts = ids_view(tools@);
        let ghost needed = step_needed(ts, fixed);
        assert(all[si as int] == ts);
        let mut changed: BTreeSet<u8> = BTreeSet::new();
        let mut j: usize = 0;
        proof {
            assert(ts.take(0) =~= Seq::<Seq<char>>::empty());
        }
        while j < tools.len()
            invariant
                j <= tools@.len(),
                table@.len() == 256,
                ts == ids_view(tools@),
                needed == step_needed(ts, fixed),
                fixed == ids_view(fixed_tools@).to_set(),
                spare == spare_slots@,
                (table_view(table@), changed@) == load_tools(spare, fixed, needed, ts.take(j as int), l0),
            decreases tools@.len() - j,
        {
            let t = &tools[j];
            proof {
                assert(ts.take(j + 1).drop_last() =~= ts.take(j as int));
                assert(ts.take(j + 1).last() == t@);
            }
            let is_fixed = contains_id(fixed_tools, t);
            let is_loaded = table_holds(&table, t);
            if !is_fixed && !is_loaded {
                match pick_slot(spare_slots, &table, tools, fixed_tools) {
                    Some(s) => {
                        let ghost before = table_view(table@);
                        table.set(s as usize, Some(t.clone()));
                        changed.insert(s);
                        assert(table_view(table@) =~= before.insert(s, t@));
                    },
                    None => {},
                }
            }
            j += 1;
        }
        proof {
            assert(ts.take(tools@.len() as int) =~= ts);
            assert(all.take(si + 1).drop_last() =~= all.take(si as int));
            assert(all.take(si + 1).last() == ts);
        }
        let map = table_to_map(&table);
        snapshots.push((map, changed));
        si += 1;
    }
    proof {
        assert(all.take(steps@.len() as int) =~= all);
        assert(schedule(spare, fixed, all.take(si as int)) == schedule(spare, fixed, all));
    }
    snapshots
}


// ---------------------------------------------------------------------------
// The schedule as the Rack view shows it
// ---------------------------------------------------------------------------

/// The rack across the whole job: physical slots × resolved steps, each cell the tool
/// loaded and whether that slot must change before that step.
pub struct RackSchedule {
    /// One per resolved step that loads tools, in order — a subset of the profile's
    /// steps, so a column's position is not its step index.
    pub steps: Vec<RackStepColumn>,
    /// One row per physical (non-disabled) slot, in slot order.
    pub slots: Vec<RackSlotSchedule>,
}

/// Which step a schedule column belongs to.
pub struct RackStepColumn {
    /// Index into the profile's steps — not the column's own position.
    pub step_index: usize,
}

/// One slot as it stands for a single step — what [`rack_for_step`] projects.
#[derive(Clone, Debug, PartialEq)]
pub struct RackSlotView {
    /// Slot label, e.g. `T1`.
    pub slot: String,
    /// The tool in it for this step, or `None` when the slot is empty.
    pub tool: Option<String>,
    pub status: SlotChange,
}

/// One slot's row of the schedule.
pub struct RackSlotSchedule {
    /// Slot label, e.g. `T1`.
    pub slot: String,
    /// One cell per step, aligned with [`RackSchedule::steps`].
    pub cells: Vec<RackCell>,
}

/// One slot at one step.
pub struct RackCell {
    /// The tool in this slot for this step, or `None` when the slot is empty.
    pub tool: Option<String>,
    pub status: SlotChange,
}

/// Whether a slot must be changed before a step — the Rack view's colour code.
#[derive(Clone, Copy, Debug, PartialEq, Eq, Structural)]
pub enum SlotChange {
    /// Toolset-pinned: present from the start, never changes.
    Fixed,
    /// The operator must load or swap this tool into the slot before this step.
    Load,
    /// Carried over from the previous step in the same slot — no action.
    Kept,
    /// Unused this step.
    Empty,
}

/// An optional string by its text.
pub open spec fn opt_view(o: Option<String>) -> Option<Seq<char>> {
    match o {
        Some(s) => Some(s@),
        None => None,
    }
}

/// A cell by its contents.
pub open spec fn cell_view(c: RackCell) -> (Option<Seq<char>>, SlotChange) {
    (opt_view(c.tool), c.status)
}

/// A row by its contents.
pub open spec fn row_view(r: RackSlotSchedule) -> (Seq<char>, Seq<(Option<Seq<char>>, SlotChange)>) {
    (r.slot@, r.cells@.map_values(|c: RackCell| cell_view(c)))
}

/// The label of a physical slot.
pub open spec fn slot_label(index: u8) -> Seq<char> {
    seq!['T'] + decimal(index as nat)
}

/// A slot pinned to a tool by the toolset.
pub open spec fn is_fixed_entry(e: (u8, RackSlot)) -> bool {
    !e.1.disabled && e.1.locked && e.1.tool_id is Some
}

/// A slot free for the scheduler.
pub open spec fn is_spare_entry(e: (u8, RackSlot)) -> bool {
    !e.1.disabled && !e.1.locked
}

/// The spare slot numbers of a toolset, in order.
pub open spec fn spare_keys(es: Seq<(u8, RackSlot)>) -> Seq<u8>
    decreases es.len(),
{
    if es.len() == 0 {
        Seq::empty()
    } else if is_spare_entry(es.last()) {
        spare_keys(es.drop_last()).push(es.last().0)
    } else {
        spare_keys(es.drop_last())
    }
}

/// The tools a toolset pins, in slot order.
pub open spec fn fixed_ids(es: Seq<(u8, RackSlot)>) -> Seq<Seq<char>>
    decreases es.len(),
{
    if es.len() == 0 {
        Seq::empty()
    } else if is_fixed_entry(es.last()) {
        fixed_ids(es.drop_last()).push(es.last().1.tool_id->0@)
    } else {
        fixed_ids(es.drop_last())
    }
}

/// One slot at one step of the schedule.
pub open spec fn cell_spec(tools: Seq<StockTool>, e: (u8, RackSlot), snap: (Loaded, Set<u8>)) -> (
    Option<Seq<char>>,
    SlotChange,
) {
    if e.1.locked {
        (
            match e.1.tool_id {
                Some(id) => Some(tool_label_spec(tools, id@)),
                None => None,
            },
            SlotChange::Fixed,
        )
    } else if snap.0.contains_key(e.0) {
        (
            Some(tool_label_spec(tools, snap.0[e.0])),
            if snap.1.contains(e.0) { SlotChange::Load } else { SlotChange::Kept },
        )
    } else {
        (None, SlotChange::Empty)
    }
}

/// The rows of the schedule: one per physical (non-disabled) slot, in slot order; a
/// reserved slot without a tool is a fixed empty row.
pub open spec fn rows_spec(tools: Seq<StockTool>, es: Seq<(u8, RackSlot)>, snaps: Seq<(Loaded, Set<u8>)>) -> Seq<
    (Seq<char>, Seq<(Option<Seq<char>>, SlotChange)>),
>
    decreases es.len(),
{
    if es.len() == 0 {
        Seq::empty()
    } else if !es.last().1.disabled {
        let e = es.last();
        rows_spec(tools, es.drop_last(), snaps).push(
            (slot_label(e.0), Seq::new(snaps.len(), |j: int| cell_spec(tools, e, snaps[j]))),
        )
    } else {
        rows_spec(tools, es.drop_last(), snaps)
    }
}

/// The spare-slot states of a toolset over a job's steps.
pub open spec fn toolset_schedule(toolset: ToolsetProfile, steps: Seq<(usize, String, Vec<String>)>) -> Seq<
    (Loaded, Set<u8>),
> {
    schedule(spare_keys(toolset.slots@), fixed_ids(toolset.slots@).to_set(), steps_view(steps))
}

fn slot_label_string(index: u8) -> (s: String)
    ensures
        s@ == slot_label(index),
{
    let mut s = String::new();
    crate::text::push_char(&mut s, 'T');
    push_decimal(&mut s, index as u64);
    assert(s@ =~= slot_label(index));
    s
}

fn copy_text(o: &Option<String>) -> (r: Option<String>)
    ensures
        opt_view(r) == opt_view(*o),
{
    match o {
        Some(s) => Some(s.clone()),
        None => None,
    }
}

/// Builds the cross-step rack schedule: each physical slot's tool per step, with the
/// change status. Fixed (toolset-pinned) slots never change; spare slots follow
/// [`schedule_spare_slots`].
pub fn build_rack_schedule(
    tools: &Vec<StockTool>,
    toolset: &ToolsetProfile,
    steps: &[(usize, String, Vec<String>)],
) -> (r: RackSchedule)
    requires
        toolset.wf(),
    ensures
        r.steps@.len() == steps@.len(),
        forall|i: int| 0 <= i < steps@.len() ==> (#[trigger] r.steps@[i]).step_index == steps@[i].0,
        r.slots@.map_values(|row: RackSlotSchedule| row_view(row)) == rows_spec(
            tools@,
            toolset.slots@,
            toolset_schedule(*toolset, steps@),
        ),
{
    let ghost es = toolset.slots@;
    // Classify the physical (non-disabled) slots into fixed (pinned tool) and spare.
    let mut spare_slots: Vec<u8> = Vec::new();
    let mut fixed: Vec<String> = Vec::new();
    let mut i: usize = 0;
    while i < toolset.slots.len()
        invariant
            i <= es.len(),
            es == toolset.slots@,
            spare_slots@ == spare_keys(es.take(i as int)),
            ids_view(fixed@) == fixed_ids(es.take(i as int)),
        decreases es.len() - i,
    {
        proof {
            assert(es.take(i + 1).drop_last() =~= es.take(i as int));
        }
        let (index, slot) = &toolset.slots[i];
        if !slot.disabled {
            if slot.locked {
                match &slot.tool_id {
                    Some(tool) => {
                        fixed.push(tool.clone());
                        assert(ids_view(fixed@) =~= fixed_ids(es.take(i as int)).push(tool@));
                    },
                    None => {},
                }
            } else {
                spare_slots.push(*index);
            }
        }
        i += 1;
    }
    proof {
        assert(es.take(es.len() as int) =~= es);
    }
    let snapshots = schedule_spare_slots(spare_slots.as_slice(), &fixed, steps);
    let ghost snaps = toolset_schedule(*toolset, steps@);
    proof {
        lemma_schedule_len(spare_keys(es), fixed_ids(es).to_set(), steps_view(steps@));
    }

    let mut rows: Vec<RackSlotSchedule> = Vec::new();
    let mut i: usize = 0;
    while i < toolset.slots.len()
        invariant
            i <= es.len(),
            es == toolset.slots@,
            snaps == toolset_schedule(*toolset, steps@),
            snaps.len() == steps@.len(),
            snapshots@.len() == steps@.len(),
            forall|k: int| 0 <= k < steps@.len() ==> snapshot_matches(#[trigger] snapshots@[k], snaps[k]),
            rows@.map_values(|row: RackSlotSchedule| row_view(row)) == rows_spec(tools@, es.take(i as int), snaps),
        decreases es.len() - i,
    {
        proof {
            assert(es.take(i + 1).drop_last() =~= es.take(i as int));
            assert(es.take(i + 1).last() == es[i as int]);
        }
        let (index, slot) = &toolset.slots[i];
        let ghost e = es[i as int];
        if !slot.disabled {
            let fixed_label: Option<String> = if slot.locked {
                match &slot.tool_id {
                    Some(id) => Some(tool_label(tools, id)),
                    None => None,
                }
            } else {
                None
            };
            let mut cells: Vec<RackCell> = Vec::new();
            let mut j: usize = 0;
            while j < snapshots.len()
                invariant
                    j <= snapshots@.len(),
                    snapshots@.len() == snaps.len(),
                    forall|k: int| 0 <= k < snaps.len() ==> snapshot_matches(#[trigger] snapshots@[k], snaps[k]),
                    e == (*index, *slot),
                    !slot.disabled,
                    slot.locked ==> opt_view(fixed_label) == match slot.tool_id {
                        Some(id) => Some(tool_label_spec(tools@, id@)),
                        None => None,
                    },
                    cells@.len() == j,
                    forall|k: int| 0 <= k < j ==> cell_view(#[trigger] cells@[k]) == cell_spec(tools@, e, snaps[k]),
                decreases snapshots@.len() - j,
            {
                let cell = if slot.locked {
                    RackCell { tool: copy_text(&fixed_label), status: SlotChange::Fixed }
                } else {
                    let (state, changed) = &snapshots[j];
                    assert(snapshot_matches(snapshots@[j as int], snaps[j as int]));
                    match state.get(index) {
                        Some(id) => {
                            let label = tool_label(tools, id);
                            let status = if changed.contains(index) {
                                SlotChange::Load
                            } else {
                                SlotChange::Kept
                            };
                            RackCell { tool: Some(label), status }
                        },
                        None => RackCell { tool: None, status: SlotChange::Empty },
                    }
                };
                cells.push(cell);
                j += 1;
            }
            let row = RackSlotSchedule { slot: slot_label_string(*index), cells };
            proof {
                assert(row_view(row).1 =~= Seq::new(snaps.len(), |k: int| cell_spec(tools@, e, snaps[k])));
            }
            let ghost old_rows = rows@;
            rows.push(row);
            proof {
                assert(rows@.map_values(|row: RackSlotSchedule| row_view(row)) =~= old_rows.map_values(
                    |row: RackSlotSchedule| row_view(row),
                ).push(row_view(row)));
            }
        }
        i += 1;
    }
    proof {
        assert(es.take(es.len() as int) =~= es);
    }

    let mut columns: Vec<RackStepColumn> = Vec::new();
    let mut k: usize = 0;
    while k < steps.len()
        invariant
            k <= steps@.len(),
            columns@.len() == k,
            forall|m: int| 0 <= m < k ==> (#[trigger] columns@[m]).step_index == steps@[m].0,
        decreases steps@.len() - k,
    {
        columns.push(RackStepColumn { step_index: steps[k].0 });
        k += 1;
    }
    RackSchedule { steps: columns, slots: rows }
}

/// The first column of the schedule that belongs to `step_index`, if any.
pub open spec fn column_of(columns: Seq<RackStepColumn>, step_index: usize) -> Option<int>
    decreases columns.len(),
{
    if columns.len() == 0 {
        None
    } else if columns[0].step_index == step_index {
        Some(0)
    } else {
        match column_of(columns.drop_first(), step_index) {
            Some(i) => Some(i + 1),
            None => None,
        }
    }
}

proof fn lemma_column_of(columns: Seq<RackStepColumn>, step_index: usize)
    ensures
        column_of(columns, step_index) matches Some(i) ==> 0 <= i < columns.len() && columns[i].step_index
            == step_index && forall|j: int| 0 <= j < i ==> columns[j].step_index != step_index,
        column_of(columns, step_index) is None ==> forall|j: int|
            0 <= j < columns.len() ==> columns[j].step_index != step_index,
    decreases columns.len(),
{
    if columns.len() > 0 {
        lemma_column_of(columns.drop_first(), step_index);
        assert forall|j: int| 1 <= j < columns.len() implies columns[j] == columns.drop_first()[j - 1] by {}
    }
}

proof fn lemma_column_first(columns: Seq<RackStepColumn>, step_index: usize, i: int)
    requires
        0 <= i < columns.len(),
        columns[i].step_index == step_index,
        forall|j: int| 0 <= j < i ==> columns[j].step_index != step_index,
    ensures
        column_of(columns, step_index) == Some(i),
    decreases i,
{
    if i > 0 {
        assert(columns.drop_first()[i - 1] == columns[i]);
        assert forall|j: int| 0 <= j < i - 1 implies columns.drop_first()[j].step_index != step_index by {
            assert(columns.drop_first()[j] == columns[j + 1]);
        }
        lemma_column_first(columns.drop_first(), step_index, i - 1);
    }
}

fn find_column(columns: &Vec<RackStepColumn>, step_index: usize) -> (r: Option<usize>)
    ensures
        r is None <==> column_of(columns@, step_index) is None,
        r matches Some(c) ==> column_of(columns@, step_index) == Some(c as int),
{
    proof {
        lemma_column_of(columns@, step_index);
    }
    let mut c: usize = 0;
    while c < columns.len()
        invariant
            c <= columns@.len(),
            forall|j: int| 0 <= j < c ==> columns@[j].step_index != step_index,
        decreases columns@.len() - c,
    {
        if columns[c].step_index == step_index {
            proof {
                lemma_column_first(columns@, step_index, c as int);
            }
            return Some(c);
        }
        c += 1;
    }
    None
}

/// The slot view of one row at one column; a row too short for the column shows an
/// empty slot.
pub open spec fn project_row(row: RackSlotSchedule, column: int) -> (Seq<char>, Option<Seq<char>>, SlotChange) {
    if column < row.cells@.len() {
        (row.slot@, opt_view(row.cells@[column].tool), row.cells@[column].status)
    } else {
        (row.slot@, None, SlotChange::Empty)
    }
}

/// A projected slot by its contents.
pub open spec fn slot_view(v: RackSlotView) -> (Seq<char>, Option<Seq<char>>, SlotChange) {
    (v.slot@, opt_view(v.tool), v.status)
}

/// The rack as it stands for one step: every physical slot, the tool in it, and
/// whether the operator must change that slot before running this step.
///
/// `None` when the step has no column — it resolved nothing, or loads no tools.
/// Projected by step index, not by column position.
pub fn rack_for_step(schedule: &RackSchedule, step_index: usize) -> (r: Option<Vec<RackSlotView>>)
    ensures
        match column_of(schedule.steps@, step_index) {
            None => r is None,
            Some(column) => r matches Some(v) && v@.len() == schedule.slots@.len() && forall|i: int|
                0 <= i < v@.len() ==> slot_view(#[trigger] v@[i]) == project_row(schedule.slots@[i], column),
        },
{
    proof {
        lemma_column_of(schedule.steps@, step_index);
    }
    let found = find_column(&schedule.steps, step_index);
    if found.is_none() {
        return None;
    }
    let column = found.unwrap();
    proof {
        let c = column_of(schedule.steps@, step_index)->0;
        assert(0 <= c < schedule.steps@.len());
        assert(column_of(schedule.steps@, step_index) == Some(column as int));
    }
    let mut out: Vec<RackSlotView> = Vec::new();
    let mut i: usize = 0;
    while i < schedule.slots.len()
        invariant
            i <= schedule.slots@.len(),
            out@.len() == i,
            column_of(schedule.steps@, step_index) == Some(column as int),
            forall|k: int| 0 <= k < i ==> slot_view(#[trigger] out@[k]) == project_row(schedule.slots@[k], column as int),
        decreases schedule.slots@.len() - i,
    {
        let row = &schedule.slots[i];
        let view = if column < row.cells.len() {
            RackSlotView {
                slot: row.slot.clone(),
                tool: copy_text(&row.cells[column].tool),
                status: row.cells[column].status,
            }
        } else {
            RackSlotView { slot: row.slot.clone(), tool: None, status: SlotChange::Empty }
        };
        out.push(view);
        i += 1;
    }
    Some(out)
}

// ---------------------------------------------------------------------------
// Laws of the schedule
// ---------------------------------------------------------------------------

/// Every spare slot holds a tool.
pub open spec fn all_occupied(spare: Seq<u8>, l: Loaded) -> bool {
    forall|s: u8| #[trigger] spare.contains(s) ==> l.contains_key(s)
}

/// Every spare slot holds a tool that is still needed.
pub open spec fn full_of_needed(spare: Seq<u8>, l: Loaded, needed: Set<Seq<char>>) -> bool {
    forall|s: u8| #[trigger] spare.contains(s) ==> l.contains_key(s) && needed.contains(l[s])
}

/// A well-formed rack: only spare slots are used, no fixed tool occupies one, and no
/// tool is loaded in two slots.
pub open spec fn rack_wf(spare: Seq<u8>, fixed: Set<Seq<char>>, l: Loaded) -> bool {
    &&& forall|k: u8| #[trigger] l.contains_key(k) ==> spare.contains(k)
    &&& forall|k: u8| #[trigger] l.contains_key(k) ==> !fixed.contains(l[k])
    &&& forall|k1: u8, k2: u8|
        #[trigger] l.contains_key(k1) && #[trigger] l.contains_key(k2) && k1 != k2 ==> l[k1] != l[k2]
}

proof fn lemma_first_empty(spare: Seq<u8>, l: Loaded)
    ensures
        first_empty(spare, l) matches Some(s) ==> spare.contains(s) && !l.contains_key(s),
        first_empty(spare, l) is None ==> all_occupied(spare, l),
    decreases spare.len(),
{
    if spare.len() > 0 {
        lemma_first_empty(spare.drop_first(), l);
        if first_empty(spare, l) is None {
            assert forall|s: u8| #[trigger] spare.contains(s) implies l.contains_key(s) by {
                let i = choose|i: int| 0 <= i < spare.len() && spare[i] == s;
                if i > 0 {
                    assert(spare.drop_first()[i - 1] == s);
                    assert(spare.drop_first().contains(s));
                }
            }
        }
        if let Some(s) = first_empty(spare, l) {
            if !l.contains_key(spare[0]) {
                assert(spare[0] == s);
            } else {
                let i = choose|i: int| 0 <= i < spare.drop_first().len() && spare.drop_first()[i] == s;
                assert(spare[i + 1] == s);
            }
        }
    }
}

proof fn lemma_first_evictable(spare: Seq<u8>, l: Loaded, needed: Set<Seq<char>>)
    ensures
        first_evictable(spare, l, needed) matches Some(s) ==> spare.contains(s) && l.contains_key(s)
            && !needed.contains(l[s]),
        first_evictable(spare, l, needed) is None ==> forall|s: u8| #[trigger]
            spare.contains(s) && l.contains_key(s) ==> needed.contains(l[s]),
    decreases spare.len(),
{
    if spare.len() > 0 {
        lemma_first_evictable(spare.drop_first(), l, needed);
        if first_evictable(spare, l, needed) is None {
            assert forall|s: u8| #[trigger] spare.contains(s) && l.contains_key(s) implies needed.contains(l[s]) by {
                let i = choose|i: int| 0 <= i < spare.len() && spare[i] == s;
                if i > 0 {
                    assert(spare.drop_first()[i - 1] == s);
                    assert(spare.drop_first().contains(s));
                }
            }
        }
        if let Some(s) = first_evictable(spare, l, needed) {
            if l.contains_key(spare[0]) && !needed.contains(l[spare[0]]) {
                assert(spare[0] == s);
            } else {
                let i = choose|i: int| 0 <= i < spare.drop_first().len() && spare.drop_first()[i] == s;
                assert(spare[i + 1] == s);
            }
        }
    }
}

/// What loading a prefix of a step's tools keeps true, by induction on the prefix.
proof fn lemma_load_tools(
    spare: Seq<u8>,
    fixed: Set<Seq<char>>,
    needed: Set<Seq<char>>,
    ts: Seq<Seq<char>>,
    l0: Loaded,
)
    requires
        forall|i: int| 0 <= i < ts.len() && !fixed.contains(#[trigger] ts[i]) ==> needed.contains(ts[i]),
        forall|t: Seq<char>| #[trigger] needed.contains(t) ==> !fixed.contains(t),
    ensures
        ({
            let (l, c) = load_tools(spare, fixed, needed, ts, l0);
            &&& forall|k: u8| #[trigger] l0.contains_key(k) ==> l.contains_key(k)
            &&& forall|k: u8| #[trigger] l.contains_key(k) ==> l0.contains_key(k) || spare.contains(k)
            &&& forall|k: u8|
                l0.contains_key(k) && needed.contains(l0[k]) ==> #[trigger] l[k] == l0[k] && !c.contains(k)
            &&& forall|k: u8|
                #[trigger] c.contains(k) <==> l.contains_key(k) && (!l0.contains_key(k) || l0[k] != l[k])
            &&& forall|k: u8| #[trigger] c.contains(k) ==> needed.contains(l[k])
            &&& forall|i: int|
                0 <= i < ts.len() && needed.contains(#[trigger] ts[i]) ==> holds_tool(l, ts[i])
                    || full_of_needed(spare, l, needed)
            &&& (exists|k: u8| #[trigger] l0.contains_key(k) && l[k] != l0[k]) ==> all_occupied(spare, l)
            &&& rack_wf(spare, fixed, l0) ==> rack_wf(spare, fixed, l)
        }),
    decreases ts.len(),
{
    if ts.len() > 0 {
        let prefix = ts.drop_last();
        assert forall|i: int| 0 <= i < prefix.len() && !fixed.contains(#[trigger] prefix[i]) implies needed.contains(prefix[i]) by {
            assert(prefix[i] == ts[i]);
        }
        lemma_load_tools(spare, fixed, needed, prefix, l0);
        let (l1, c1) = load_tools(spare, fixed, needed, prefix, l0);
        let (l, c) = load_tools(spare, fixed, needed, ts, l0);
        let t = ts.last();
        lemma_first_empty(spare, l1);
        lemma_first_evictable(spare, l1, needed);
        if !(fixed.contains(t) || holds_tool(l1, t)) {
            match pick_slot_spec(spare, l1, needed) {
                Some(s) => {
                    assert(l == l1.insert(s, t));
                    assert(c == c1.insert(s));
                    assert(needed.contains(t));
                    // The slot taken was empty or held a tool not needed now.
                    assert(!l1.contains_key(s) || !needed.contains(l1[s]));
                    assert forall|k: u8| l0.contains_key(k) && needed.contains(l0[k]) implies #[trigger] l[k] == l0[k] && !c.contains(k) by {
                        if k == s {
                            assert(l1[k] == l0[k]);
                        }
                    }
                    assert forall|k: u8| #[trigger] c.contains(k) implies needed.contains(l[k]) by {}
                    assert forall|k: u8| #[trigger] c.contains(k) <==> l.contains_key(k) && (!l0.contains_key(k) || l0[k] != l[k]) by {
                        if k == s {
                            if l0.contains_key(k) && l0[k] == t {
                                // t was already in slot s at the start and is needed, so it
                                // would still be held there.
                                assert(l1[k] == l0[k]);
                                assert(l1.contains_key(k) && l1[k] == t);
                                assert(holds_tool(l1, t));
                            }
                        }
                    }
                    assert forall|i: int| 0 <= i < ts.len() && needed.contains(#[trigger] ts[i]) implies holds_tool(l, ts[i])
                        || full_of_needed(spare, l, needed) by {
                        if i == ts.len() - 1 {
                            assert(l.contains_key(s) && l[s] == t);
                        } else {
                            assert(prefix[i] == ts[i]);
                            if full_of_needed(spare, l1, needed) {
                                assert(false);
                            }
                            assert(holds_tool(l1, ts[i]));
                            let k = choose|k: u8| #[trigger] l1.contains_key(k) && l1[k] == ts[i];
                            assert(k != s || !needed.contains(l1[s]) || !l1.contains_key(s));
                            assert(l.contains_key(k) && l[k] == ts[i]);
                        }
                    }
                    if exists|k: u8| #[trigger] l0.contains_key(k) && l[k] != l0[k] {
                        let k = choose|k: u8| #[trigger] l0.contains_key(k) && l[k] != l0[k];
                        if k != s {
                            assert(l1[k] != l0[k]);
                            assert(all_occupied(spare, l1));
                        } else if l1[k] != l0[k] {
                            assert(all_occupied(spare, l1));
                        } else {
                            assert(l1.contains_key(s));
                            assert(first_empty(spare, l1) is None);
                            assert(all_occupied(spare, l1));
                        }
                        assert forall|x: u8| #[trigger] spare.contains(x) implies l.contains_key(x) by {
                            assert(l1.contains_key(x));
                        }
                    }
                    if rack_wf(spare, fixed, l0) {
                        assert(rack_wf(spare, fixed, l1));
                        assert forall|k1: u8, k2: u8|
                            #[trigger] l.contains_key(k1) && #[trigger] l.contains_key(k2) && k1 != k2 implies l[k1] != l[k2] by {
                            if k1 == s && l[k2] == t {
                                assert(holds_tool(l1, t));
                            }
                            if k2 == s && l[k1] == t {
                                assert(holds_tool(l1, t));
                            }
                        }
                        assert forall|k: u8| #[trigger] l.contains_key(k) implies spare.contains(k) by {}
                    }
                },
                None => {
                    assert(full_of_needed(spare, l1, needed));
                },
            }
        } else {
            assert forall|i: int| 0 <= i < ts.len() && needed.contains(#[trigger] ts[i]) implies holds_tool(l, ts[i])
                || full_of_needed(spare, l, needed) by {
                if i < ts.len() - 1 {
                    assert(prefix[i] == ts[i]);
                }
            }
        }
    }
}

/// The needed set of a step names only tools that are not fixed, and every unfixed
/// tool the step uses.
proof fn lemma_step_needed(tools: Seq<Seq<char>>, fixed: Set<Seq<char>>)
    ensures
        forall|i: int| 0 <= i < tools.len() && !fixed.contains(#[trigger] tools[i]) ==> step_needed(tools, fixed).contains(tools[i]),
        forall|t: Seq<char>| #[trigger] step_needed(tools, fixed).contains(t) ==> !fixed.contains(t),
{
    assert forall|i: int| 0 <= i < tools.len() && !fixed.contains(#[trigger] tools[i]) implies step_needed(tools, fixed).contains(tools[i]) by {
        assert(tools.contains(tools[i]));
    }
}

/// A tool still needed by a step stays in the slot it already occupies, and that slot
/// is not marked as changed: reused tools keep a stable slot across steps.
pub proof fn lemma_needed_tools_stay_in_place(spare: Seq<u8>, fixed: Set<Seq<char>>, tools: Seq<Seq<char>>, l: Loaded, k: u8)
    requires
        l.contains_key(k),
        step_needed(tools, fixed).contains(l[k]),
    ensures
        after_step(spare, fixed, tools, l).0.contains_key(k),
        after_step(spare, fixed, tools, l).0[k] == l[k],
        !after_step(spare, fixed, tools, l).1.contains(k),
{
    lemma_step_needed(tools, fixed);
    lemma_load_tools(spare, fixed, step_needed(tools, fixed), tools, l);
}

/// A slot is marked changed exactly when it holds a tool it did not hold before the
/// step; no slot is ever emptied.
pub proof fn lemma_changed_slots_are_the_reloaded_ones(spare: Seq<u8>, fixed: Set<Seq<char>>, tools: Seq<Seq<char>>, l: Loaded, k: u8)
    ensures
        l.contains_key(k) ==> after_step(spare, fixed, tools, l).0.contains_key(k),
        after_step(spare, fixed, tools, l).1.contains(k) <==> after_step(spare, fixed, tools, l).0.contains_key(k)
            && (!l.contains_key(k) || l[k] != after_step(spare, fixed, tools, l).0[k]),
        after_step(spare, fixed, tools, l).1.contains(k) ==> step_needed(tools, fixed).contains(
            after_step(spare, fixed, tools, l).0[k],
        ),
{
    lemma_step_needed(tools, fixed);
    lemma_load_tools(spare, fixed, step_needed(tools, fixed), tools, l);
}

/// After a step every tool it needs is in the rack, unless the rack overflowed: every
/// spare slot then holds a tool that the step needs.
pub proof fn lemma_needed_tools_are_loaded_unless_full(spare: Seq<u8>, fixed: Set<Seq<char>>, tools: Seq<Seq<char>>, l: Loaded, t: Seq<char>)
    requires
        step_needed(tools, fixed).contains(t),
    ensures
        holds_tool(after_step(spare, fixed, tools, l).0, t) || full_of_needed(
            spare,
            after_step(spare, fixed, tools, l).0,
            step_needed(tools, fixed),
        ),
{
    lemma_step_needed(tools, fixed);
    lemma_load_tools(spare, fixed, step_needed(tools, fixed), tools, l);
    let i = choose|i: int| 0 <= i < tools.len() && tools[i] == t;
    assert(step_needed(tools, fixed).contains(tools[i]));
}

/// A loaded tool is evicted only when no spare slot is left empty, and only when the
/// step does not need it.
pub proof fn lemma_eviction_only_when_full_and_idle(spare: Seq<u8>, fixed: Set<Seq<char>>, tools: Seq<Seq<char>>, l: Loaded, k: u8)
    requires
        l.contains_key(k),
        after_step(spare, fixed, tools, l).0[k] != l[k],
    ensures
        all_occupied(spare, after_step(spare, fixed, tools, l).0),
        !step_needed(tools, fixed).contains(l[k]),
{
    lemma_step_needed(tools, fixed);
    lemma_load_tools(spare, fixed, step_needed(tools, fixed), tools, l);
    assert(l.contains_key(k) && after_step(spare, fixed, tools, l).0[k] != l[k]);
}

/// Each entry of the schedule is the step applied to the rack the previous step left
/// (the empty rack before the first step).
pub proof fn lemma_schedule_step(spare: Seq<u8>, fixed: Set<Seq<char>>, steps: Seq<Seq<Seq<char>>>, i: int)
    requires
        0 <= i < steps.len(),
    ensures
        schedule(spare, fixed, steps).len() == steps.len(),
        schedule(spare, fixed, steps)[i] == after_step(
            spare,
            fixed,
            steps[i],
            if i == 0 { Map::empty() } else { schedule(spare, fixed, steps)[i - 1].0 },
        ),
    decreases steps.len(),
{
    lemma_schedule_len(spare, fixed, steps);
    if i < steps.len() - 1 {
        lemma_schedule_step(spare, fixed, steps.drop_last(), i);
    }
}

proof fn lemma_schedule_len(spare: Seq<u8>, fixed: Set<Seq<char>>, steps: Seq<Seq<Seq<char>>>)
    ensures
        schedule(spare, fixed, steps).len() == steps.len(),
    decreases steps.len(),
{
    if steps.len() > 0 {
        lemma_schedule_len(spare, fixed, steps.drop_last());
    }
}

/// Every state of the schedule is a well-formed rack: only spare slots are used, no
/// fixed tool ever occupies one, and no tool is loaded twice.
pub proof fn lemma_schedule_well_formed(spare: Seq<u8>, fixed: Set<Seq<char>>, steps: Seq<Seq<Seq<char>>>, i: int)
    requires
        0 <= i < steps.len(),
    ensures
        rack_wf(spare, fixed, schedule(spare, fixed, steps)[i].0),
    decreases i,
{
    lemma_schedule_step(spare, fixed, steps, i);
    let prev: Loaded = if i == 0 { Map::empty() } else { schedule(spare, fixed, steps)[i - 1].0 };
    if i > 0 {
        lemma_schedule_well_formed(spare, fixed, steps, i - 1);
    } else {
        assert(rack_wf(spare, fixed, prev));
    }
    lemma_step_needed(steps[i], fixed);
    lemma_load_tools(spare, fixed, step_needed(steps[i], fixed), steps[i], prev);
}

/// A row of the schedule is either pinned at every step or at none, and a pinned row
/// shows the same tool throughout: toolset-fixed slots never change.
pub proof fn lemma_pinned_rows_never_change(tools: Seq<StockTool>, es: Seq<(u8, RackSlot)>, snaps: Seq<(Loaded, Set<u8>)>)
    ensures
        forall|m: int| 0 <= m < rows_spec(tools, es, snaps).len() ==> (#[trigger] rows_spec(tools, es, snaps)[m]).1.len() == snaps.len(),
        forall|m: int, j: int, k: int|
            #![trigger rows_spec(tools, es, snaps)[m].1[j], rows_spec(tools, es, snaps)[m].1[k]]
            0 <= m < rows_spec(tools, es, snaps).len() && 0 <= j < snaps.len() && 0 <= k < snaps.len()
                && rows_spec(tools, es, snaps)[m].1[j].1 == SlotChange::Fixed ==> rows_spec(tools, es, snaps)[m].1[k]
                == rows_spec(tools, es, snaps)[m].1[j],
    decreases es.len(),
{
    if es.len() > 0 {
        lemma_pinned_rows_never_change(tools, es.drop_last(), snaps);
        let prev = rows_spec(tools, es.drop_last(), snaps);
        let cur = rows_spec(tools, es, snaps);
        assert forall|m: int| 0 <= m < cur.len() implies (#[trigger] cur[m]).1.len() == snaps.len() by {
            if m < prev.len() {
                assert(cur[m] == prev[m]);
            }
        }
        assert forall|m: int, j: int, k: int|
            #![trigger cur[m].1[j], cur[m].1[k]]
            0 <= m < cur.len() && 0 <= j < snaps.len() && 0 <= k < snaps.len() && cur[m].1[j].1
                == SlotChange::Fixed implies cur[m].1[k] == cur[m].1[j] by {
            if m < prev.len() {
                assert(cur[m] == prev[m]);
            } else {
                let e = es.last();
                assert(cur[m].1[j] == cell_spec(tools, e, snaps[j]));
                assert(cur[m].1[k] == cell_spec(tools, e, snaps[k]));
            }
        }
    }
}

/// The rack before step `k` of the schedule: the empty rack before the first step.
pub open spec fn rack_before(spare: Seq<u8>, fixed: Set<Seq<char>>, steps: Seq<Seq<Seq<char>>>, k: int) -> Loaded {
    if k == 0 {
        Map::empty()
    } else {
        schedule(spare, fixed, steps)[k - 1].0
    }
}

/// At every step of the spare-slot schedule: the rack is well formed (only spare
/// slots, no fixed tool, no tool twice); a changed slot holds a tool the step needs,
/// and if it held another tool before, that tool was not needed and no spare slot was
/// left empty; an unchanged slot holds what it held before; no slot is emptied; and
/// every tool the step needs is loaded unless every spare slot holds a needed tool.
pub proof fn lemma_spare_schedule_laws(spare: Seq<u8>, fixed: Set<Seq<char>>, steps: Seq<Seq<Seq<char>>>, k: int)
    requires
        0 <= k < steps.len(),
    ensures
        ({
            let cur = schedule(spare, fixed, steps)[k];
            let prev = rack_before(spare, fixed, steps, k);
            let needed = step_needed(steps[k], fixed);
            &&& rack_wf(spare, fixed, cur.0)
            &&& forall|s: u8| #[trigger] cur.1.contains(s) ==> cur.0.contains_key(s) && needed.contains(cur.0[s])
            &&& forall|s: u8|
                #[trigger] cur.1.contains(s) && prev.contains_key(s) ==> prev[s] != cur.0[s] && !needed.contains(prev[s])
                    && all_occupied(spare, cur.0)
            &&& forall|s: u8|
                #[trigger] cur.0.contains_key(s) && !cur.1.contains(s) ==> prev.contains_key(s) && prev[s] == cur.0[s]
            &&& forall|s: u8| #[trigger] prev.contains_key(s) ==> cur.0.contains_key(s)
            &&& forall|t: Seq<char>| #[trigger] needed.contains(t) ==> holds_tool(cur.0, t) || full_of_needed(spare, cur.0, needed)
        }),
{
    lemma_schedule_step(spare, fixed, steps, k);
    lemma_schedule_well_formed(spare, fixed, steps, k);
    let prev = rack_before(spare, fixed, steps, k);
    let tools = steps[k];
    let cur = schedule(spare, fixed, steps)[k];
    assert(cur == after_step(spare, fixed, tools, prev));
    assert forall|s: u8| #[trigger] cur.1.contains(s) implies cur.0.contains_key(s) && step_needed(tools, fixed).contains(cur.0[s]) by {
        lemma_changed_slots_are_the_reloaded_ones(spare, fixed, tools, prev, s);
    }
    assert forall|s: u8| #[trigger] cur.1.contains(s) && prev.contains_key(s) implies prev[s] != cur.0[s]
        && !step_needed(tools, fixed).contains(prev[s]) && all_occupied(spare, cur.0) by {
        lemma_changed_slots_are_the_reloaded_ones(spare, fixed, tools, prev, s);
        lemma_eviction_only_when_full_and_idle(spare, fixed, tools, prev, s);
    }
    assert forall|s: u8| #[trigger] cur.0.contains_key(s) && !cur.1.contains(s) implies prev.contains_key(s)
        && prev[s] == cur.0[s] by {
        lemma_changed_slots_are_the_reloaded_ones(spare, fixed, tools, prev, s);
    }
    assert forall|s: u8| #[trigger] prev.contains_key(s) implies cur.0.contains_key(s) by {
        lemma_changed_slots_are_the_reloaded_ones(spare, fixed, tools, prev, s);
    }
    assert forall|t: Seq<char>| #[trigger] step_needed(tools, fixed).contains(t) implies holds_tool(cur.0, t)
        || full_of_needed(spare, cur.0, step_needed(tools, fixed)) by {
        lemma_needed_tools_are_loaded_unless_full(spare, fixed, tools, prev, t);
    }
}

/// Every tool in a spare slot at step `k` is one some step up to `k` uses.
pub proof fn lemma_loaded_tools_were_needed(spare: Seq<u8>, fixed: Set<Seq<char>>, steps: Seq<Seq<Seq<char>>>, k: int)
    requires
        0 <= k < steps.len(),
    ensures
        forall|s: u8|
            #[trigger] schedule(spare, fixed, steps)[k].0.contains_key(s) ==> exists|j: int|
                0 <= j <= k && steps[j].contains(schedule(spare, fixed, steps)[k].0[s]),
    decreases k,
{
    lemma_spare_schedule_laws(spare, fixed, steps, k);
    if k > 0 {
        lemma_loaded_tools_were_needed(spare, fixed, steps, k - 1);
    }
    let cur = schedule(spare, fixed, steps)[k];
    assert forall|s: u8| #[trigger] cur.0.contains_key(s) implies exists|j: int|
        0 <= j <= k && steps[j].contains(cur.0[s]) by {
        if cur.1.contains(s) {
            assert(steps[k].contains(cur.0[s]));
        } else {
            let prev = rack_before(spare, fixed, steps, k);
            assert(prev.contains_key(s));
            assert(k > 0);
            assert(schedule(spare, fixed, steps)[k - 1].0.contains_key(s));
            let j = choose|j: int| 0 <= j <= k - 1 && steps[j].contains(schedule(spare, fixed, steps)[k - 1].0[s]);
            assert(steps[j].contains(cur.0[s]));
        }
    }
}

proof fn lemma_keys_persist(spare: Seq<u8>, fixed: Set<Seq<char>>, steps: Seq<Seq<Seq<char>>>, j: int, k: int, s: u8)
    requires
        0 <= j <= k < steps.len(),
        schedule(spare, fixed, steps)[j].0.contains_key(s),
    ensures
        schedule(spare, fixed, steps)[k].0.contains_key(s),
    decreases k - j,
{
    if j < k {
        lemma_keys_persist(spare, fixed, steps, j, k - 1, s);
        lemma_spare_schedule_laws(spare, fixed, steps, k);
        assert(rack_before(spare, fixed, steps, k).contains_key(s));
    }
}

/// The cells of one slot's row: a reserved slot is fixed at every step, showing its
/// tool (or none); a spare slot is never fixed, shows a tool exactly when it is not
/// empty, stays empty only until its first load, and is kept at a step only when it
/// held the same tool at the step before.
pub proof fn lemma_slot_cells(
    tools: Seq<StockTool>,
    e: (u8, RackSlot),
    spare: Seq<u8>,
    fixed: Set<Seq<char>>,
    steps: Seq<Seq<Seq<char>>>,
    k: int,
)
    requires
        0 <= k < steps.len(),
    ensures
        ({
            let snaps = schedule(spare, fixed, steps);
            let cell = cell_spec(tools, e, snaps[k]);
            &&& e.1.locked ==> cell == (
                match e.1.tool_id {
                    Some(id) => Some(tool_label_spec(tools, id@)),
                    None => None,
                },
                SlotChange::Fixed,
            )
            &&& !e.1.locked ==> {
                &&& cell.1 != SlotChange::Fixed
                &&& (cell.0 is None <==> cell.1 == SlotChange::Empty)
                &&& cell.1 == SlotChange::Empty ==> forall|j: int|
                    0 <= j <= k ==> (#[trigger] cell_spec(tools, e, snaps[j])).1 == SlotChange::Empty
                &&& cell.1 == SlotChange::Kept ==> k > 0 && snaps[k - 1].0.contains_key(e.0) && snaps[k].0.contains_key(
                    e.0,
                ) && snaps[k - 1].0[e.0] == snaps[k].0[e.0]
            }
        }),
{
    let snaps = schedule(spare, fixed, steps);
    lemma_spare_schedule_laws(spare, fixed, steps, k);
    if !e.1.locked {
        assert forall|j: int| 0 <= j <= k && cell_spec(tools, e, snaps[k]).1 == SlotChange::Empty implies (
        #[trigger] cell_spec(tools, e, snaps[j])).1 == SlotChange::Empty by {
            if snaps[j].0.contains_key(e.0) {
                lemma_keys_persist(spare, fixed, steps, j, k, e.0);
            }
        }
    }
}

/// Every row of the schedule is one physical slot's: its label and its cell at every
/// step.
pub proof fn lemma_rows_are_slots(tools: Seq<StockTool>, es: Seq<(u8, RackSlot)>, snaps: Seq<(Loaded, Set<u8>)>)
    ensures
        forall|m: int|
            #![trigger rows_spec(tools, es, snaps)[m]]
            0 <= m < rows_spec(tools, es, snaps).len() ==> exists|i: int|
                0 <= i < es.len() && !(#[trigger] es[i]).1.disabled && rows_spec(tools, es, snaps)[m] == (
                    slot_label(es[i].0),
                    Seq::new(snaps.len(), |j: int| cell_spec(tools, es[i], snaps[j])),
                ),
        forall|i: int| 0 <= i < es.len() && !(#[trigger] es[i]).1.disabled ==> exists|m: int|
            0 <= m < rows_spec(tools, es, snaps).len() && rows_spec(tools, es, snaps)[m] == (
                slot_label(es[i].0),
                Seq::new(snaps.len(), |j: int| cell_spec(tools, es[i], snaps[j])),
            ),
    decreases es.len(),
{
    if es.len() > 0 {
        let init = es.drop_last();
        lemma_rows_are_slots(tools, init, snaps);
        let prev = rows_spec(tools, init, snaps);
        let cur = rows_spec(tools, es, snaps);
        assert forall|m: int| #![trigger cur[m]] 0 <= m < cur.len() implies exists|i: int|
            0 <= i < es.len() && !(#[trigger] es[i]).1.disabled && cur[m] == (
                slot_label(es[i].0),
                Seq::new(snaps.len(), |j: int| cell_spec(tools, es[i], snaps[j])),
            ) by {
            if m < prev.len() {
                assert(cur[m] == prev[m]);
                let i = choose|i: int|
                    0 <= i < init.len() && !(#[trigger] init[i]).1.disabled && prev[m] == (
                        slot_label(init[i].0),
                        Seq::new(snaps.len(), |j: int| cell_spec(tools, init[i], snaps[j])),
                    );
                assert(es[i] == init[i]);
            } else {
                assert(es[es.len() - 1] == es.last());
            }
        }
        assert forall|i: int| 0 <= i < es.len() && !(#[trigger] es[i]).1.disabled implies exists|m: int|
            0 <= m < cur.len() && cur[m] == (
                slot_label(es[i].0),
                Seq::new(snaps.len(), |j: int| cell_spec(tools, es[i], snaps[j])),
            ) by {
            if i < es.len() - 1 {
                assert(es[i] == init[i]);
                assert(!init[i].1.disabled);
                let m = choose|m: int|
                    0 <= m < prev.len() && prev[m] == (
                        slot_label(init[i].0),
                        Seq::new(snaps.len(), |j: int| cell_spec(tools, init[i], snaps[j])),
                    );
                assert(cur[m] == prev[m]);
            } else {
                assert(cur[cur.len() - 1] == (
                    slot_label(es[i].0),
                    Seq::new(snaps.len(), |j: int| cell_spec(tools, es[i], snaps[j])),
                ));
            }
        }
    }
}

/// When a step needs no more tools in the spare slots than there are spare slots,
/// every one of them is loaded at that step.
pub proof fn lemma_needed_tools_fit(spare: Seq<u8>, fixed: Set<Seq<char>>, steps: Seq<Seq<Seq<char>>>, k: int)
    requires
        0 <= k < steps.len(),
        step_needed(steps[k], fixed).len() <= spare.to_set().len(),
    ensures
        forall|t: Seq<char>| #[trigger] step_needed(steps[k], fixed).contains(t) ==> holds_tool(
            schedule(spare, fixed, steps)[k].0,
            t,
        ),
{
    lemma_spare_schedule_laws(spare, fixed, steps, k);
    let cur = schedule(spare, fixed, steps)[k].0;
    let needed = step_needed(steps[k], fixed);
    assert(needed.subset_of(steps[k].to_set()));
    vstd::set_lib::lemma_len_subset(needed, steps[k].to_set());
    assert forall|t: Seq<char>| #[trigger] needed.contains(t) implies holds_tool(cur, t) by {
        if !holds_tool(cur, t) {
            assert(full_of_needed(spare, cur, needed));
            let x = spare.to_set();
            let f = |s: u8| cur[s];
            assert(vstd::relations::injective_on(f, x)) by {
                assert forall|a: u8, b: u8| x.contains(a) && x.contains(b) && #[trigger] f(a) == #[trigger] f(b) implies a
                    == b by {
                    assert(spare.contains(a) && spare.contains(b));
                    assert(cur.contains_key(a) && cur.contains_key(b));
                }
            }
            let y = x.map(f);
            vstd::set_lib::lemma_map_size(x, y, f);
            assert(y.subset_of(needed.remove(t))) by {
                assert forall|v: Seq<char>| #[trigger] y.contains(v) implies needed.remove(t).contains(v) by {
                    let s = choose|s: u8| x.contains(s) && f(s) == v;
                    assert(spare.contains(s));
                    assert(cur.contains_key(s) && needed.contains(cur[s]));
                    if v == t {
                        assert(holds_tool(cur, t));
                    }
                }
            }
            vstd::set_lib::lemma_len_subset(y, needed.remove(t));
        }
    }
}

} // verus!
