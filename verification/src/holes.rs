//! Board holes grouped into machining requirements: one group per (kind, size), with
//! the number of holes that share it.

use vstd::prelude::*;

use crate::text::{push_decimal, push_signed_decimal, decimal, signed_decimal};

verus! {

/// How a board hole is made in KiCad.
#[derive(Clone, Copy, Debug, PartialEq, Eq, Structural)]
pub enum HoleKind {
    PadPth,
    PadNpth,
    Via,
}

/// The kind of a machining requirement.
#[derive(Clone, Copy, Debug, PartialEq, Eq, Structural)]
pub enum DemandKind {
    Pth,
    Npth,
    Locating,
    CornerRelief,
}

/// A drilled hole of the board, with its drill sizes in micrometres.
#[derive(Clone, Copy, Debug)]
pub struct BoardHole {
    pub kind: HoleKind,
    pub drill_x_um: Option<i64>,
    pub drill_y_um: Option<i64>,
}

/// The hole's (major, minor) drill axes: the larger and the smaller of the two drill
/// sizes, or the one given when only one is; `None` without any drill size.
pub open spec fn drill_axes_spec(h: BoardHole) -> Option<(i64, i64)> {
    match (h.drill_x_um, h.drill_y_um) {
        (Some(x), Some(y)) => if x >= y { Some((x, y)) } else { Some((y, x)) },
        (Some(d), None) => Some((d, d)),
        (None, Some(d)) => Some((d, d)),
        (None, None) => None,
    }
}

/// The width of the hole's slot when it is oblong (two unequal drill sizes).
pub open spec fn slot_width_spec(h: BoardHole) -> Option<i64> {
    match (h.drill_x_um, h.drill_y_um) {
        (Some(x), Some(y)) => if x == y { None } else if x < y { Some(x) } else { Some(y) },
        _ => None,
    }
}

impl BoardHole {
    /// The hole's (major, minor) drill axes.
    pub fn drill_axes(&self) -> (r: Option<(i64, i64)>)
        ensures
            r == drill_axes_spec(*self),
    {
        match (self.drill_x_um, self.drill_y_um) {
            (Some(x), Some(y)) => if x >= y { Some((x, y)) } else { Some((y, x)) },
            (Some(d), None) => Some((d, d)),
            (None, Some(d)) => Some((d, d)),
            (None, None) => None,
        }
    }

    /// The slot width of an oblong hole; `None` for a round one.
    pub fn slot_width(&self) -> (r: Option<i64>)
        ensures
            r == slot_width_spec(*self),
    {
        match (self.drill_x_um, self.drill_y_um) {
            (Some(x), Some(y)) => if x == y { None } else if x < y { Some(x) } else { Some(y) },
            _ => None,
        }
    }
}

/// A distinct machining requirement (holes of one kind and size) with its count.
#[derive(Clone, Copy, Debug)]
pub struct HoleGroup {
    pub kind: DemandKind,
    /// The nominal size in micrometres (the larger axis for an oblong).
    pub target_um: i64,
    /// The minor axis for an oblong hole; `None` for a round hole.
    pub minor_um: Option<i64>,
    pub count: usize,
}

/// The requirement a single hole belongs to (count 1), or `None` when the enabled
/// operations do not drill it.
pub open spec fn group_of(h: BoardHole, has_pth: bool, has_npth: bool) -> Option<HoleGroup> {
    let kind = match h.kind {
        HoleKind::PadPth => if has_pth { Some(DemandKind::Pth) } else { None },
        HoleKind::Via => if has_pth { Some(DemandKind::Pth) } else { None },
        HoleKind::PadNpth => if has_npth { Some(DemandKind::Npth) } else { None },
    };
    match (kind, drill_axes_spec(h)) {
        (Some(k), Some(axes)) => Some(HoleGroup { kind: k, target_um: axes.0, minor_um: slot_width_spec(h), count: 1 }),
        _ => None,
    }
}

/// Two groups are the same requirement.
pub open spec fn same_requirement(a: HoleGroup, b: HoleGroup) -> bool {
    a.kind == b.kind && a.target_um == b.target_um && a.minor_um == b.minor_um
}

/// The index of the group already recording `g`'s requirement, if any.
pub open spec fn find_group(groups: Seq<HoleGroup>, g: HoleGroup) -> Option<int>
    decreases groups.len(),
{
    if groups.len() == 0 {
        None
    } else if same_requirement(groups[0], g) {
        Some(0)
    } else {
        match find_group(groups.drop_first(), g) {
            Some(i) => Some(i + 1),
            None => None,
        }
    }
}

/// The requirement groups of the holes, in order of first appearance, with counts.
pub open spec fn groups_spec(holes: Seq<BoardHole>, has_pth: bool, has_npth: bool) -> Seq<HoleGroup>
    decreases holes.len(),
{
    if holes.len() == 0 {
        Seq::empty()
    } else {
        let prev = groups_spec(holes.drop_last(), has_pth, has_npth);
        match group_of(holes.last(), has_pth, has_npth) {
            None => prev,
            Some(g) => match find_group(prev, g) {
                Some(i) => prev.update(i, HoleGroup { count: (prev[i].count + 1) as usize, ..prev[i] }),
                None => prev.push(g),
            },
        }
    }
}

impl HoleGroup {
    /// Classifies a single board hole into its requirement group (count 1), or `None`
    /// when the hole is not drilled by the enabled operations.
    pub fn from_hole(hole: &BoardHole, has_pth: bool, has_npth: bool) -> (r: Option<HoleGroup>)
        ensures
            r == group_of(*hole, has_pth, has_npth),
    {
        let kind = match hole.kind {
            HoleKind::PadPth => if has_pth { DemandKind::Pth } else { return None },
            HoleKind::Via => if has_pth { DemandKind::Pth } else { return None },
            HoleKind::PadNpth => if has_npth { DemandKind::Npth } else { return None },
        };
        let (major, _) = match hole.drill_axes() {
            Some(axes) => axes,
            None => return None,
        };
        Some(HoleGroup { kind, target_um: major, minor_um: hole.slot_width(), count: 1 })
    }

    /// The requirement as the plan table names it, given its sizes as the operator
    /// reads them: `PTH hole ⌀0.80mm`, or `NPTH oblong 4.00mm × 2.00mm` (the minor
    /// size is read only for an oblong).
    pub fn label(&self, target_text: &str, minor_text: &str) -> (s: String)
        ensures
            s@ == requirement_kind_text(self.kind) + match self.minor_um {
                Some(_) => " oblong "@ + target_text@ + " × "@ + minor_text@,
                None => " hole ⌀"@ + target_text@,
            },
    {
        let mut s = String::new();
        s.append(requirement_kind(self.kind));
        match self.minor_um {
            Some(_) => {
                s.append(" oblong ");
                s.append(target_text);
                s.append(" × ");
                s.append(minor_text);
            },
            None => {
                s.append(" hole ⌀");
                s.append(target_text);
            },
        }
        s
    }

    /// A stable identity used to match the assigner's per-hole result back to a group:
    /// `kind-target-minor`, with `-1` for a round hole's minor axis.
    pub fn id(&self) -> (s: String)
        ensures
            s@ == kind_key_spec(self.kind) + seq!['-'] + signed_decimal(self.target_um as int) + seq!['-']
                + signed_decimal(match self.minor_um { Some(m) => m as int, None => -1 }),
    {
        let mut s = String::new();
        s.append(kind_key(self.kind));
        crate::text::push_char(&mut s, '-');
        push_signed_decimal(&mut s, self.target_um);
        crate::text::push_char(&mut s, '-');
        let minor: i64 = match self.minor_um {
            Some(m) => m,
            None => -1,
        };
        push_signed_decimal(&mut s, minor);
        s
    }
}

/// The name of a requirement kind in the plan table.
pub open spec fn requirement_kind_text(kind: DemandKind) -> Seq<char> {
    match kind {
        DemandKind::Pth => "PTH"@,
        DemandKind::Npth => "NPTH"@,
        DemandKind::Locating => "Locating"@,
        DemandKind::CornerRelief => "Corner relief"@,
    }
}

fn requirement_kind(kind: DemandKind) -> (s: &'static str)
    ensures
        s@ == requirement_kind_text(kind),
{
    match kind {
        DemandKind::Pth => "PTH",
        DemandKind::Npth => "NPTH",
        DemandKind::Locating => "Locating",
        DemandKind::CornerRelief => "Corner relief",
    }
}

/// The short key of a requirement kind.
pub open spec fn kind_key_spec(kind: DemandKind) -> Seq<char> {
    match kind {
        DemandKind::Pth => "pth"@,
        DemandKind::Npth => "npth"@,
        DemandKind::Locating => "loc"@,
        DemandKind::CornerRelief => "corner"@,
    }
}

/// The short key of a requirement kind.
pub fn kind_key(kind: DemandKind) -> (s: &'static str)
    ensures
        s@ == kind_key_spec(kind),
{
    match kind {
        DemandKind::Pth => "pth",
        DemandKind::Npth => "npth",
        DemandKind::Locating => "loc",
        DemandKind::CornerRelief => "corner",
    }
}

proof fn lemma_find_group(groups: Seq<HoleGroup>, g: HoleGroup)
    ensures
        find_group(groups, g) matches Some(i) ==> 0 <= i < groups.len() && same_requirement(groups[i], g)
            && forall|j: int| 0 <= j < i ==> !same_requirement(groups[j], g),
        find_group(groups, g) is None ==> forall|j: int| 0 <= j < groups.len() ==> !same_requirement(groups[j], g),
    decreases groups.len(),
{
    if groups.len() > 0 {
        lemma_find_group(groups.drop_first(), g);
        assert forall|j: int| 1 <= j < groups.len() implies groups[j] == groups.drop_first()[j - 1] by {}
    }
}

proof fn lemma_find_group_first(groups: Seq<HoleGroup>, g: HoleGroup, i: int)
    requires
        0 <= i < groups.len(),
        same_requirement(groups[i], g),
        forall|j: int| 0 <= j < i ==> !same_requirement(groups[j], g),
    ensures
        find_group(groups, g) == Some(i),
    decreases i,
{
    if i > 0 {
        assert(groups.drop_first()[i - 1] == groups[i]);
        assert forall|j: int| 0 <= j < i - 1 implies !same_requirement(groups.drop_first()[j], g) by {
            assert(groups.drop_first()[j] == groups[j + 1]);
        }
        lemma_find_group_first(groups.drop_first(), g, i - 1);
    }
}

/// The total number of holes a list of groups records.
pub open spec fn total_count(groups: Seq<HoleGroup>) -> int
    decreases groups.len(),
{
    if groups.len() == 0 {
        0
    } else {
        total_count(groups.drop_last()) + groups.last().count
    }
}

/// The number of holes the enabled operations drill.
pub open spec fn drilled_count(holes: Seq<BoardHole>, has_pth: bool, has_npth: bool) -> int
    decreases holes.len(),
{
    if holes.len() == 0 {
        0
    } else {
        drilled_count(holes.drop_last(), has_pth, has_npth) + if group_of(holes.last(), has_pth, has_npth) is Some {
            1int
        } else {
            0int
        }
    }
}

proof fn lemma_total_count_update(groups: Seq<HoleGroup>, i: int, g: HoleGroup)
    requires
        0 <= i < groups.len(),
    ensures
        total_count(groups.update(i, g)) == total_count(groups) - groups[i].count + g.count,
    decreases groups.len(),
{
    if i < groups.len() - 1 {
        assert(groups.update(i, g).drop_last() =~= groups.drop_last().update(i, g));
        lemma_total_count_update(groups.drop_last(), i, g);
    } else {
        assert(groups.update(i, g).drop_last() =~= groups.drop_last());
    }
}

proof fn lemma_total_count_push(groups: Seq<HoleGroup>, g: HoleGroup)
    ensures
        total_count(groups.push(g)) == total_count(groups) + g.count,
{
    assert(groups.push(g).drop_last() =~= groups);
}

/// Grouping loses and invents no hole: the counts add up to the number of holes the
/// enabled operations drill, every group counts at least one hole, and no two groups
/// record the same requirement.
pub proof fn lemma_groups_account_for_every_hole(holes: Seq<BoardHole>, has_pth: bool, has_npth: bool)
    requires
        holes.len() <= usize::MAX,
    ensures
        total_count(groups_spec(holes, has_pth, has_npth)) == drilled_count(holes, has_pth, has_npth),
        0 <= drilled_count(holes, has_pth, has_npth) <= holes.len(),
        forall|i: int|
            0 <= i < groups_spec(holes, has_pth, has_npth).len() ==> 1 <= #[trigger] groups_spec(
                holes,
                has_pth,
                has_npth,
            )[i].count <= drilled_count(holes, has_pth, has_npth),
        forall|i: int, j: int|
            0 <= i < j < groups_spec(holes, has_pth, has_npth).len() ==> !same_requirement(
                #[trigger] groups_spec(holes, has_pth, has_npth)[i],
                #[trigger] groups_spec(holes, has_pth, has_npth)[j],
            ),
    decreases holes.len(),
{
    if holes.len() > 0 {
        let prev = groups_spec(holes.drop_last(), has_pth, has_npth);
        lemma_groups_account_for_every_hole(holes.drop_last(), has_pth, has_npth);
        let cur = groups_spec(holes, has_pth, has_npth);
        match group_of(holes.last(), has_pth, has_npth) {
            None => {},
            Some(g) => {
                lemma_find_group(prev, g);
                match find_group(prev, g) {
                    Some(i) => {
                        let ng = HoleGroup { count: (prev[i].count + 1) as usize, ..prev[i] };
                        assert(prev[i].count + 1 <= usize::MAX);
                        assert(cur == prev.update(i, ng));
                        lemma_total_count_update(prev, i, ng);
                        assert forall|a: int, b: int| 0 <= a < b < cur.len() implies !same_requirement(
                            #[trigger] cur[a],
                            #[trigger] cur[b],
                        ) by {
                            assert(same_requirement(cur[a], prev[a]) || a == i);
                            if a == i {
                                assert(same_requirement(cur[a], prev[a]));
                            }
                            if b == i {
                                assert(same_requirement(cur[b], prev[b]));
                            }
                        }
                    },
                    None => {
                        lemma_total_count_push(prev, g);
                        assert(cur == prev.push(g));
                        assert forall|a: int, b: int| 0 <= a < b < cur.len() implies !same_requirement(
                            #[trigger] cur[a],
                            #[trigger] cur[b],
                        ) by {
                            if b == cur.len() - 1 {
                                assert(!same_requirement(prev[a], g));
                            }
                        }
                    },
                }
            },
        }
    }
}

/// Whether a group records the requirement (kind, target, minor).
pub open spec fn records(g: HoleGroup, kind: DemandKind, target_um: i64, minor_um: Option<i64>) -> bool {
    g.kind == kind && g.target_um == target_um && g.minor_um == minor_um
}

/// The number of holes the groups record for the requirement (kind, target, minor).
pub open spec fn requirement_total(
    groups: Seq<HoleGroup>,
    kind: DemandKind,
    target_um: i64,
    minor_um: Option<i64>,
) -> int
    decreases groups.len(),
{
    if groups.len() == 0 {
        0
    } else {
        requirement_total(groups.drop_last(), kind, target_um, minor_um) + if records(
            groups.last(),
            kind,
            target_um,
            minor_um,
        ) {
            groups.last().count as int
        } else {
            0int
        }
    }
}

/// The number of holes drilled by the enabled operations that belong to the
/// requirement (kind, target, minor).
pub open spec fn requirement_drilled(
    holes: Seq<BoardHole>,
    has_pth: bool,
    has_npth: bool,
    kind: DemandKind,
    target_um: i64,
    minor_um: Option<i64>,
) -> int
    decreases holes.len(),
{
    if holes.len() == 0 {
        0
    } else {
        requirement_drilled(holes.drop_last(), has_pth, has_npth, kind, target_um, minor_um) + if group_of(
            holes.last(),
            has_pth,
            has_npth,
        ) matches Some(g) && records(g, kind, target_um, minor_um) {
            1int
        } else {
            0int
        }
    }
}

proof fn lemma_requirement_total_update(
    groups: Seq<HoleGroup>,
    i: int,
    g: HoleGroup,
    kind: DemandKind,
    target_um: i64,
    minor_um: Option<i64>,
)
    requires
        0 <= i < groups.len(),
    ensures
        requirement_total(groups.update(i, g), kind, target_um, minor_um) == requirement_total(
            groups,
            kind,
            target_um,
            minor_um,
        ) - (if records(groups[i], kind, target_um, minor_um) {
            groups[i].count as int
        } else {
            0int
        }) + (if records(g, kind, target_um, minor_um) {
            g.count as int
        } else {
            0int
        }),
    decreases groups.len(),
{
    if i < groups.len() - 1 {
        assert(groups.update(i, g).drop_last() =~= groups.drop_last().update(i, g));
        lemma_requirement_total_update(groups.drop_last(), i, g, kind, target_um, minor_um);
    } else {
        assert(groups.update(i, g).drop_last() =~= groups.drop_last());
    }
}

/// Every group records holes of one kind and one size only: for each requirement
/// (kind, target, minor), the groups of that requirement count exactly the drilled
/// holes that have it, and no two groups share a requirement. A plated and a
/// non-plated hole of the same size are never counted together.
pub proof fn lemma_groups_count_each_requirement(
    holes: Seq<BoardHole>,
    has_pth: bool,
    has_npth: bool,
    kind: DemandKind,
    target_um: i64,
    minor_um: Option<i64>,
)
    requires
        holes.len() <= usize::MAX,
    ensures
        requirement_total(groups_spec(holes, has_pth, has_npth), kind, target_um, minor_um)
            == requirement_drilled(holes, has_pth, has_npth, kind, target_um, minor_um),
        forall|i: int, j: int|
            0 <= i < j < groups_spec(holes, has_pth, has_npth).len() ==> !(#[trigger] groups_spec(
                holes,
                has_pth,
                has_npth,
            )[i].kind == groups_spec(holes, has_pth, has_npth)[j].kind && groups_spec(holes, has_pth, has_npth)[i].target_um
                == groups_spec(holes, has_pth, has_npth)[j].target_um && groups_spec(holes, has_pth, has_npth)[i].minor_um
                == #[trigger] groups_spec(holes, has_pth, has_npth)[j].minor_um),
    decreases holes.len(),
{
    lemma_groups_account_for_every_hole(holes, has_pth, has_npth);
    if holes.len() > 0 {
        let prev = groups_spec(holes.drop_last(), has_pth, has_npth);
        lemma_groups_count_each_requirement(holes.drop_last(), has_pth, has_npth, kind, target_um, minor_um);
        lemma_groups_account_for_every_hole(holes.drop_last(), has_pth, has_npth);
        let cur = groups_spec(holes, has_pth, has_npth);
        match group_of(holes.last(), has_pth, has_npth) {
            None => {},
            Some(g) => {
                lemma_find_group(prev, g);
                match find_group(prev, g) {
                    Some(i) => {
                        let ng = HoleGroup { count: (prev[i].count + 1) as usize, ..prev[i] };
                        assert(prev[i].count + 1 <= usize::MAX);
                        assert(cur == prev.update(i, ng));
                        lemma_requirement_total_update(prev, i, ng, kind, target_um, minor_um);
                    },
                    None => {
                        assert(cur == prev.push(g));
                        assert(cur.drop_last() =~= prev);
                    },
                }
            },
        }
    }
}

fn same_minor(a: Option<i64>, b: Option<i64>) -> (r: bool)
    ensures
        r == (a == b),
{
    match (a, b) {
        (Some(x), Some(y)) => x == y,
        (None, None) => true,
        _ => false,
    }
}

fn find_group_index(groups: &Vec<HoleGroup>, group: &HoleGroup) -> (r: Option<usize>)
    ensures
        r is None <==> find_group(groups@, *group) is None,
        r matches Some(j) ==> find_group(groups@, *group) == Some(j as int),
{
    proof {
        lemma_find_group(groups@, *group);
    }
    let mut j: usize = 0;
    while j < groups.len()
        invariant
            j <= groups@.len(),
            forall|k: int| 0 <= k < j ==> !same_requirement(groups@[k], *group),
        decreases groups@.len() - j,
    {
        let g = groups[j];
        if g.kind == group.kind && g.target_um == group.target_um && same_minor(g.minor_um, group.minor_um) {
            proof {
                lemma_find_group_first(groups@, *group, j as int);
            }
            return Some(j);
        }
        j += 1;
    }
    None
}

/// Groups the holes drilled by the enabled operations into distinct (kind, size)
/// requirements with counts, in order of first appearance.
pub fn collect_hole_groups(holes: &Vec<BoardHole>, has_pth: bool, has_npth: bool) -> (groups: Vec<HoleGroup>)
    ensures
        groups@ == groups_spec(holes@, has_pth, has_npth),
{
    let mut groups: Vec<HoleGroup> = Vec::new();
    let mut i: usize = 0;
    while i < holes.len()
        invariant
            i <= holes@.len(),
            groups@ == groups_spec(holes@.take(i as int), has_pth, has_npth),
        decreases holes@.len() - i,
    {
        proof {
            assert(holes@.take(i + 1).drop_last() =~= holes@.take(i as int));
            lemma_groups_account_for_every_hole(holes@.take(i as int), has_pth, has_npth);
        }
        match HoleGroup::from_hole(&holes[i], has_pth, has_npth) {
            None => {},
            Some(group) => {
                let ghost prev = groups@;
                proof {
                    lemma_find_group(prev, group);
                }
                let found = find_group_index(&groups, &group);
                match found {
                    Some(j) => {
                        proof {
                            assert(prev[j as int].count <= drilled_count(holes@.take(i as int), has_pth, has_npth));
                        }
                        let mut g = groups[j];
                        g.count = g.count + 1;
                        groups.set(j, g);
                    },
                    None => {
                        groups.push(group);
                    },
                }
            },
        }
        i += 1;
    }
    proof {
        assert(holes@.take(holes@.len() as int) =~= holes@);
    }
    groups
}

} // verus!
