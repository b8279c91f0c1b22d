//! The rack a step's tool assignment must fit: which slots are pinned, which are
//! free, and how many distinct tools the rack can hold.

use vstd::prelude::*;

use crate::model::{RackSlot, ToolsetGenerationPolicy, ToolsetProfile};
use crate::rack::{is_fixed_entry, is_spare_entry, spare_keys, fixed_ids};
use crate::text::{decimal, push_decimal, texts};

verus! {

/// What the assigner may do when the toolset's pinned tools are not enough.
#[derive(Clone, Copy, Debug, PartialEq, Eq, Structural)]
pub enum OverflowPolicy {
    FixedToolset,
    AllowReload,
    AllowHybrid,
}

/// The overflow policy a toolset's generation policy asks for.
pub fn map_policy(policy: ToolsetGenerationPolicy) -> (r: OverflowPolicy)
    ensures
        r == match policy {
            ToolsetGenerationPolicy::FixedToolset => OverflowPolicy::FixedToolset,
            ToolsetGenerationPolicy::AllowReload => OverflowPolicy::AllowReload,
            ToolsetGenerationPolicy::AllowHybrid => OverflowPolicy::AllowHybrid,
        },
{
    match policy {
        ToolsetGenerationPolicy::FixedToolset => OverflowPolicy::FixedToolset,
        ToolsetGenerationPolicy::AllowReload => OverflowPolicy::AllowReload,
        ToolsetGenerationPolicy::AllowHybrid => OverflowPolicy::AllowHybrid,
    }
}

/// The rack as the tool assigner sees it.
pub struct RackSpec {
    /// How many distinct tools the rack can hold.
    pub capacity: usize,
    /// The pinned slots and their tools, in slot order.
    pub fixed: Vec<(u8, String)>,
    /// The free slots, in slot order.
    pub spare_slots: Vec<u8>,
    /// Tools the rack must hold whatever the holes need.
    pub mandatory: Vec<String>,
    pub policy: OverflowPolicy,
}

/// The pinned slots of a toolset with their tools, in slot order.
pub open spec fn fixed_pairs(es: Seq<(u8, RackSlot)>) -> Seq<(u8, Seq<char>)>
    decreases es.len(),
{
    if es.len() == 0 {
        Seq::empty()
    } else if is_fixed_entry(es.last()) {
        fixed_pairs(es.drop_last()).push((es.last().0, es.last().1.tool_id->0@))
    } else {
        fixed_pairs(es.drop_last())
    }
}

/// The capacity of a rack: each distinct pinned tool plus one per free slot, capped
/// by the automatic tool changer's slot count when the machine has one.
pub open spec fn capacity_spec(es: Seq<(u8, RackSlot)>, atc_slots: usize) -> int {
    let placeable = fixed_ids(es).to_set().len() + spare_keys(es).len();
    if atc_slots > 0 && atc_slots < placeable {
        atc_slots as int
    } else {
        placeable as int
    }
}

proof fn lemma_keys_bounded(es: Seq<(u8, RackSlot)>)
    ensures
        fixed_ids(es).len() + spare_keys(es).len() <= es.len(),
        fixed_pairs(es).len() == fixed_ids(es).len(),
        forall|k: int| 0 <= k < fixed_ids(es).len() ==> #[trigger] fixed_ids(es)[k] == fixed_pairs(es)[k].1,
    decreases es.len(),
{
    if es.len() > 0 {
        lemma_keys_bounded(es.drop_last());
    }
}

fn contains_text(v: &Vec<String>, t: &String) -> (r: bool)
    ensures
        r == texts(v@).contains(t@),
{
    let mut i: usize = 0;
    while i < v.len()
        invariant
            i <= v@.len(),
            forall|k: int| 0 <= k < i ==> v@[k]@ != t@,
        decreases v@.len() - i,
    {
        if v[i] == *t {
            assert(texts(v@)[i as int] == t@);
            return true;
        }
        i += 1;
    }
    proof {
        if texts(v@).contains(t@) {
            let k = choose|k: int| 0 <= k < texts(v@).len() && texts(v@)[k] == t@;
            assert(v@[k]@ == t@);
        }
    }
    false
}

/// Maps a toolset and the machine's tool-changer size to the assigner's rack spec.
pub fn build_rack_spec(toolset: &ToolsetProfile, atc_slots: usize, mandatory: &Vec<String>) -> (r: RackSpec)
    ensures
        r.fixed@.map_values(|p: (u8, String)| (p.0, p.1@)) == fixed_pairs(toolset.slots@),
        r.spare_slots@ == spare_keys(toolset.slots@),
        r.capacity == capacity_spec(toolset.slots@, atc_slots),
        texts(r.mandatory@) == texts(mandatory@),
        r.policy == map_policy_spec(toolset.generation_policy),
{
    let ghost es = toolset.slots@;
    let mut fixed: Vec<(u8, String)> = Vec::new();
    let mut spare: Vec<u8> = Vec::new();
    let mut distinct: Vec<String> = Vec::new();
    let mut i: usize = 0;
    proof {
        assert(texts(distinct@).to_set() =~= fixed_ids(es.take(0)).to_set());
    }
    while i < toolset.slots.len()
        invariant
            i <= es.len(),
            es == toolset.slots@,
            fixed@.map_values(|p: (u8, String)| (p.0, p.1@)) == fixed_pairs(es.take(i as int)),
            spare@ == spare_keys(es.take(i as int)),
            texts(distinct@).no_duplicates(),
            texts(distinct@).to_set() == fixed_ids(es.take(i as int)).to_set(),
            distinct@.len() + spare@.len() <= i,
        decreases es.len() - i,
    {
        proof {
            assert(es.take(i + 1).drop_last() =~= es.take(i as int));
            assert(es.take(i + 1).last() == es[i as int]);
        }
        let (index, slot) = &toolset.slots[i];
        if slot.locked && !slot.disabled {
            match &slot.tool_id {
                Some(id) => {
                    let ghost old_fixed = fixed@;
                    fixed.push((*index, id.clone()));
                    assert(fixed@.map_values(|p: (u8, String)| (p.0, p.1@)) =~= old_fixed.map_values(
                        |p: (u8, String)| (p.0, p.1@),
                    ).push((*index, id@)));
                    let ghost old_d = texts(distinct@);
                    if !contains_text(&distinct, id) {
                        distinct.push(id.clone());
                        proof {
                            assert(texts(distinct@) =~= old_d.push(id@));
                            old_d.lemma_push_to_set_commute(id@);
                        }
                    } else {
                        proof {
                            assert(old_d.to_set().insert(id@) =~= old_d.to_set());
                        }
                    }
                    proof {
                        assert(fixed_ids(es.take(i + 1)) == fixed_ids(es.take(i as int)).push(id@));
                        fixed_ids(es.take(i as int)).lemma_push_to_set_commute(id@);
                    }
                },
                None => {},
            }
        } else if !slot.locked && !slot.disabled {
            spare.push(*index);
        }
        i += 1;
    }
    proof {
        assert(es.take(es.len() as int) =~= es);
        lemma_keys_bounded(es);
        texts(distinct@).unique_seq_to_set();
        assert(texts(distinct@).len() == distinct@.len());
    }
    let placeable = distinct.len() + spare.len();
    let capacity = if atc_slots > 0 && atc_slots < placeable { atc_slots } else { placeable };
    let mut mand: Vec<String> = Vec::new();
    let mut k: usize = 0;
    while k < mandatory.len()
        invariant
            k <= mandatory@.len(),
            texts(mand@) == texts(mandatory@.take(k as int)),
        decreases mandatory@.len() - k,
    {
        let ghost old_m = mand@;
        let item = mandatory[k].clone();
        mand.push(item);
        proof {
            assert(mandatory@.take(k + 1) =~= mandatory@.take(k as int).push(mandatory@[k as int]));
            assert(texts(mand@) =~= texts(old_m).push(item@));
            assert(texts(mandatory@.take(k + 1)) =~= texts(mandatory@.take(k as int)).push(mandatory@[k as int]@));
        }
        k += 1;
    }
    proof {
        assert(mandatory@.take(mandatory@.len() as int) =~= mandatory@);
    }
    RackSpec { capacity, fixed, spare_slots: spare, mandatory: mand, policy: map_policy(toolset.generation_policy) }
}

/// The overflow policy a generation policy asks for.
pub open spec fn map_policy_spec(policy: ToolsetGenerationPolicy) -> OverflowPolicy {
    match policy {
        ToolsetGenerationPolicy::FixedToolset => OverflowPolicy::FixedToolset,
        ToolsetGenerationPolicy::AllowReload => OverflowPolicy::AllowReload,
        ToolsetGenerationPolicy::AllowHybrid => OverflowPolicy::AllowHybrid,
    }
}

/// A rack never claims more room than it has: its capacity is at most the number of
/// usable (pinned or free) slots, and at most the tool changer's size when the machine
/// has one.
pub proof fn lemma_capacity_is_physical(es: Seq<(u8, RackSlot)>, atc_slots: usize)
    ensures
        capacity_spec(es, atc_slots) <= fixed_ids(es).len() + spare_keys(es).len(),
        atc_slots > 0 ==> capacity_spec(es, atc_slots) <= atc_slots,
{
    fixed_ids(es).lemma_cardinality_of_set();
}

/// A one-line context for a resolved step: tool count and how tools are changed.
pub open spec fn machine_summary_spec(tool_count: usize, atc_slots: usize) -> Seq<char> {
    if atc_slots == 0 {
        decimal(tool_count as nat) + " tool(s) · manual tool changes (no ATC)"@
    } else {
        decimal(tool_count as nat) + " tool(s) · "@ + decimal(atc_slots as nat) + "-slot ATC"@
    }
}

/// A one-line context for a resolved step. A machine without a tool changer changes
/// tools by hand, so its T-numbers are a change sequence rather than slot positions.
pub fn machine_summary(tool_count: usize, atc_slots: usize) -> (s: String)
    ensures
        s@ == machine_summary_spec(tool_count, atc_slots),
{
    let mut s = String::new();
    push_decimal(&mut s, tool_count as u64);
    if atc_slots == 0 {
        s.append(" tool(s) · manual tool changes (no ATC)");
    } else {
        s.append(" tool(s) · ");
        push_decimal(&mut s, atc_slots as u64);
        s.append("-slot ATC");
    }
    s
}

} // verus!
