//! Edge-cut stitching: the board's edge primitives are chained into closed
//! contours, which are then ordered by nesting (outer boundaries first, their holes
//! after) and checked before anything is machined from them.
//!
//! Curves are flattened to polylines of nanometre points by the caller (that step
//! works in floating point); everything from the polylines on is integer geometry
//! and lives here.

use vstd::prelude::*;
use crate::text::{decimal, push_decimal, texts};

verus! {

/// Two endpoints are coincident when they lie within this distance, in nanometres.
/// Ten micrometres is generous for edge cuts, which are normally drawn exactly.
pub const STITCH_TOLERANCE_NM: i64 = 10_000;

/// A point on the board, in nanometres.
#[derive(Clone, Copy, Debug, PartialEq, Eq, Structural)]
pub struct BoardPoint {
    pub x_nm: i64,
    pub y_nm: i64,
}

/// A board point as an `(x, y)` pair of nanometres.
pub fn nm(p: &BoardPoint) -> (r: (i64, i64))
    ensures
        r == (p.x_nm, p.y_nm),
{
    (p.x_nm, p.y_nm)
}

// ---------------------------------------------------------------------------
// Distances
// ---------------------------------------------------------------------------

/// The squared distance between two points, as a mathematical integer.
pub open spec fn exact_dist_sq(a: (i64, i64), b: (i64, i64)) -> int {
    (a.0 - b.0) * (a.0 - b.0) + (a.1 - b.1) * (a.1 - b.1)
}

/// Whether the squared distance from `a` to `b` can be computed: each coordinate
/// difference fits in an `i64` and the sum of their squares in an `i128`.
pub open spec fn dist_defined(a: (i64, i64), b: (i64, i64)) -> bool {
    &&& i64::MIN <= a.0 - b.0 <= i64::MAX
    &&& i64::MIN <= a.1 - b.1 <= i64::MAX
    &&& exact_dist_sq(a, b) <= i128::MAX
}

/// The squared distance, clamped to `i64::MAX`.
pub open spec fn dist_sq_spec(a: (i64, i64), b: (i64, i64)) -> int {
    if exact_dist_sq(a, b) > i64::MAX {
        i64::MAX as int
    } else {
        exact_dist_sq(a, b)
    }
}

/// Whether two points are coincident for stitching.
pub open spec fn close_spec(a: (i64, i64), b: (i64, i64)) -> bool {
    dist_sq_spec(a, b) <= STITCH_TOLERANCE_NM * STITCH_TOLERANCE_NM
}

proof fn lemma_square_bound(d: int)
    requires
        i64::MIN <= d <= i64::MAX,
    ensures
        0 <= d * d <= 0x4000_0000_0000_0000_0000_0000_0000_0000,
{
    assert(0 <= d * d <= 0x4000_0000_0000_0000_0000_0000_0000_0000) by (nonlinear_arith)
        requires
            -0x8000_0000_0000_0000 <= d <= 0x7fff_ffff_ffff_ffff,
    ;
}

/// The squared distance between two points, saturating at `i64::MAX`.
pub fn dist_sq(a: (i64, i64), b: (i64, i64)) -> (r: i64)
    requires
        dist_defined(a, b),
    ensures
        r == dist_sq_spec(a, b),
        r >= 0,
{
    let dx = a.0 - b.0;
    let dy = a.1 - b.1;
    proof {
        lemma_square_bound(dx as int);
        lemma_square_bound(dy as int);
    }
    let dx2: i128 = (dx as i128) * (dx as i128);
    let dy2: i128 = (dy as i128) * (dy as i128);
    let d2: i128 = dx2 + dy2;
    if d2 > i64::MAX as i128 {
        i64::MAX
    } else {
        d2 as i64
    }
}

/// Whether two endpoints are within the stitching tolerance of each other.
pub fn close_enough(a: (i64, i64), b: (i64, i64)) -> (r: bool)
    requires
        dist_defined(a, b),
    ensures
        r == close_spec(a, b),
{
    let t = STITCH_TOLERANCE_NM;
    dist_sq(a, b) <= t * t
}

// ---------------------------------------------------------------------------
// Bounding box and area
// ---------------------------------------------------------------------------

/// The smallest x of a point list, or `i64::MAX` for none.
pub open spec fn min_x(pts: Seq<(i64, i64)>) -> i64
    decreases pts.len(),
{
    if pts.len() == 0 {
        i64::MAX
    } else {
        let m = min_x(pts.drop_last());
        if pts.last().0 < m { pts.last().0 } else { m }
    }
}

/// The smallest y of a point list, or `i64::MAX` for none.
pub open spec fn min_y(pts: Seq<(i64, i64)>) -> i64
    decreases pts.len(),
{
    if pts.len() == 0 {
        i64::MAX
    } else {
        let m = min_y(pts.drop_last());
        if pts.last().1 < m { pts.last().1 } else { m }
    }
}

/// The largest x of a point list, or `i64::MIN` for none.
pub open spec fn max_x(pts: Seq<(i64, i64)>) -> i64
    decreases pts.len(),
{
    if pts.len() == 0 {
        i64::MIN
    } else {
        let m = max_x(pts.drop_last());
        if pts.last().0 > m { pts.last().0 } else { m }
    }
}

/// The largest y of a point list, or `i64::MIN` for none.
pub open spec fn max_y(pts: Seq<(i64, i64)>) -> i64
    decreases pts.len(),
{
    if pts.len() == 0 {
        i64::MIN
    } else {
        let m = max_y(pts.drop_last());
        if pts.last().1 > m { pts.last().1 } else { m }
    }
}

/// The bounding box `(xmin, ymin, xmax, ymax)` of a point list; for no points the
/// empty box `(i64::MAX, i64::MAX, i64::MIN, i64::MIN)`.
pub fn bbox_nm(pts: &[(i64, i64)]) -> (r: (i64, i64, i64, i64))
    ensures
        r == (min_x(pts@), min_y(pts@), max_x(pts@), max_y(pts@)),
{
    let mut xmin = i64::MAX;
    let mut ymin = i64::MAX;
    let mut xmax = i64::MIN;
    let mut ymax = i64::MIN;
    let mut i: usize = 0;
    while i < pts.len()
        invariant
            i <= pts@.len(),
            xmin == min_x(pts@.take(i as int)),
            ymin == min_y(pts@.take(i as int)),
            xmax == max_x(pts@.take(i as int)),
            ymax == max_y(pts@.take(i as int)),
        decreases pts@.len() - i,
    {
        let (x, y) = pts[i];
        assert(pts@.take(i + 1).drop_last() =~= pts@.take(i as int));
        if x < xmin {
            xmin = x;
        }
        if y < ymin {
            ymin = y;
        }
        if x > xmax {
            xmax = x;
        }
        if y > ymax {
            ymax = y;
        }
        i += 1;
    }
    assert(pts@.take(i as int) =~= pts@);
    (xmin, ymin, xmax, ymax)
}

/// The shoelace term of edge `i` (from point `i` to the next, wrapping at the end).
pub open spec fn cross_term(pts: Seq<(i64, i64)>, i: int) -> int {
    let p = pts[i];
    let q = pts[(i + 1) % (pts.len() as int)];
    p.0 * q.1 - q.0 * p.1
}

/// The sum of the first `k` shoelace terms.
pub open spec fn shoelace(pts: Seq<(i64, i64)>, k: int) -> int
    decreases k,
{
    if k <= 0 {
        0
    } else {
        shoelace(pts, k - 1) + cross_term(pts, k - 1)
    }
}

/// Whether the shoelace sum can be accumulated in an `i128`: every term and every
/// partial sum fits.
pub open spec fn area_defined(pts: Seq<(i64, i64)>) -> bool {
    &&& forall|i: int| 0 <= i < pts.len() ==> i128::MIN <= #[trigger] cross_term(pts, i) <= i128::MAX
    &&& forall|k: int| 0 <= k <= pts.len() ==> i128::MIN <= #[trigger] shoelace(pts, k) <= i128::MAX
}

/// Integer division rounding toward zero, as Rust's `/` does.
pub open spec fn div_toward_zero(a: int, b: int) -> int {
    if a >= 0 { a / b } else { -((-a) / b) }
}

/// Twice the signed area of a closed polygon, halved toward zero: positive for a
/// counter-clockwise polygon.
pub open spec fn signed_area_spec(pts: Seq<(i64, i64)>) -> int {
    div_toward_zero(shoelace(pts, pts.len() as int), 2)
}

/// The signed area (nm²) of the polygon through `pts`, by the shoelace formula.
pub fn signed_area_nm2(pts: &[(i64, i64)]) -> (r: i128)
    requires
        area_defined(pts@),
    ensures
        r == signed_area_spec(pts@),
{
    let n = pts.len();
    let mut sum: i128 = 0;
    let mut i: usize = 0;
    while i < n
        invariant
            n == pts@.len(),
            i <= n,
            area_defined(pts@),
            sum == shoelace(pts@, i as int),
        decreases n - i,
    {
        let (x0, y0) = pts[i];
        let (x1, y1) = pts[(i + 1) % n];
        proof {
            assert(cross_term(pts@, i as int) == x0 * y1 - x1 * y0);
            assert(shoelace(pts@, i + 1) == shoelace(pts@, i as int) + cross_term(pts@, i as int));
            assert(i128::MIN <= cross_term(pts@, i as int) <= i128::MAX);
            assert(i128::MIN <= shoelace(pts@, i + 1) <= i128::MAX);
            lemma_product_bound(x0 as int, y1 as int);
            lemma_product_bound(x1 as int, y0 as int);
        }
        let term: i128 = (x0 as i128) * (y1 as i128) - (x1 as i128) * (y0 as i128);
        sum = sum + term;
        i += 1;
    }
    sum / 2
}

proof fn lemma_product_bound(a: int, b: int)
    requires
        i64::MIN <= a <= i64::MAX,
        i64::MIN <= b <= i64::MAX,
    ensures
        -0x4000_0000_0000_0000_0000_0000_0000_0000 <= a * b <= 0x4000_0000_0000_0000_0000_0000_0000_0000,
{
    assert(-0x4000_0000_0000_0000_0000_0000_0000_0000 <= a * b <= 0x4000_0000_0000_0000_0000_0000_0000_0000)
        by (nonlinear_arith)
        requires
            -0x8000_0000_0000_0000 <= a <= 0x7fff_ffff_ffff_ffff,
            -0x8000_0000_0000_0000 <= b <= 0x7fff_ffff_ffff_ffff,
    ;
}

// ---------------------------------------------------------------------------
// Edge primitives and the fragments made from them
// ---------------------------------------------------------------------------

/// One primitive on the board's edge-cut layer, in nanometres. `id` is the
/// primitive's identifier where the board file gives one.
#[derive(Clone, Debug)]
pub enum BoardEdgeShape {
    Track { id: Option<String>, start: BoardPoint, end: BoardPoint },
    Arc { id: Option<String>, start: BoardPoint, mid: BoardPoint, end: BoardPoint },
    GraphicSegment { id: Option<String>, start: BoardPoint, end: BoardPoint },
    GraphicRectangle {
        id: Option<String>,
        top_left: BoardPoint,
        bottom_right: BoardPoint,
        corner_radius_nm: Option<i64>,
    },
    GraphicArc { id: Option<String>, start: BoardPoint, mid: BoardPoint, end: BoardPoint },
    GraphicCircle { id: Option<String>, center: BoardPoint, radius_point: BoardPoint },
    GraphicBezier {
        id: Option<String>,
        start: BoardPoint,
        control1: BoardPoint,
        control2: BoardPoint,
        end: BoardPoint,
    },
    /// A polygon of which only the number of points is known.
    GraphicPolygon { id: Option<String>, point_count: usize },
}

/// The polyline made from one edge primitive. Circles and rectangles close on
/// themselves; everything else is open and waits to be chained.
pub struct Fragment {
    pub points: Vec<(i64, i64)>,
    pub is_closed: bool,
    /// The primitive's id, or `shape#<index>`, for messages.
    pub label: String,
}

/// The identifier of a primitive, whatever its kind.
pub open spec fn shape_id(shape: BoardEdgeShape) -> Option<String> {
    match shape {
        BoardEdgeShape::Track { id, .. } => id,
        BoardEdgeShape::Arc { id, .. } => id,
        BoardEdgeShape::GraphicSegment { id, .. } => id,
        BoardEdgeShape::GraphicRectangle { id, .. } => id,
        BoardEdgeShape::GraphicArc { id, .. } => id,
        BoardEdgeShape::GraphicCircle { id, .. } => id,
        BoardEdgeShape::GraphicBezier { id, .. } => id,
        BoardEdgeShape::GraphicPolygon { id, .. } => id,
    }
}

/// The label of the primitive at `index`: its id, else `shape#<index>`.
pub open spec fn shape_label(shape: BoardEdgeShape, index: nat) -> Seq<char> {
    match shape_id(shape) {
        Some(id) => id@,
        None => "shape#"@ + decimal(index),
    }
}

pub open spec fn point_of(p: BoardPoint) -> (i64, i64) {
    (p.x_nm, p.y_nm)
}

/// The fragment made from a primitive, given the flattened polyline `curve` of its
/// curved part (the arc or bezier without its end point, the circle, the rectangle);
/// `None` for a polygon, whose outline is unknown, and for an open curve of fewer
/// than two points. As `(points, is_closed)`.
pub open spec fn fragment_spec(shape: BoardEdgeShape, curve: Seq<(i64, i64)>) -> Option<
    (Seq<(i64, i64)>, bool),
> {
    match shape {
        BoardEdgeShape::Track { start, end, .. } => Some((seq![point_of(start), point_of(end)], false)),
        BoardEdgeShape::GraphicSegment { start, end, .. } => Some(
            (seq![point_of(start), point_of(end)], false),
        ),
        BoardEdgeShape::Arc { end, .. } => if curve.len() + 1 >= 2 {
            Some((curve.push(point_of(end)), false))
        } else {
            None
        },
        BoardEdgeShape::GraphicArc { end, .. } => if curve.len() + 1 >= 2 {
            Some((curve.push(point_of(end)), false))
        } else {
            None
        },
        BoardEdgeShape::GraphicBezier { end, .. } => if curve.len() + 1 >= 2 {
            Some((curve.push(point_of(end)), false))
        } else {
            None
        },
        BoardEdgeShape::GraphicCircle { .. } => Some((curve, true)),
        BoardEdgeShape::GraphicRectangle { .. } => Some((curve, true)),
        BoardEdgeShape::GraphicPolygon { .. } => None,
    }
}

fn copy_points(pts: &Vec<(i64, i64)>) -> (r: Vec<(i64, i64)>)
    ensures
        r@ == pts@,
{
    let mut r: Vec<(i64, i64)> = Vec::new();
    let mut i: usize = 0;
    while i < pts.len()
        invariant
            i <= pts@.len(),
            r@ == pts@.take(i as int),
        decreases pts@.len() - i,
    {
        r.push(pts[i]);
        i += 1;
        assert(r@ =~= pts@.take(i as int));
    }
    assert(pts@.take(i as int) =~= pts@);
    r
}

fn shape_label_text(shape: &BoardEdgeShape, index: usize) -> (r: String)
    ensures
        r@ == shape_label(*shape, index as nat),
{
    let id = match shape {
        BoardEdgeShape::Track { id, .. } => id,
        BoardEdgeShape::Arc { id, .. } => id,
        BoardEdgeShape::GraphicSegment { id, .. } => id,
        BoardEdgeShape::GraphicRectangle { id, .. } => id,
        BoardEdgeShape::GraphicArc { id, .. } => id,
        BoardEdgeShape::GraphicCircle { id, .. } => id,
        BoardEdgeShape::GraphicBezier { id, .. } => id,
        BoardEdgeShape::GraphicPolygon { id, .. } => id,
    };
    match id {
        Some(s) => s.clone(),
        None => {
            let mut s = String::new();
            s.append("shape#");
            push_decimal(&mut s, index as u64);
            s
        },
    }
}

/// Turns one edge primitive into a fragment. `curve` is the primitive's curved part
/// flattened to a polyline; it is not read for tracks, segments and polygons.
pub fn shape_to_fragment(shape: &BoardEdgeShape, index: usize, curve: &Vec<(i64, i64)>) -> (r: Option<
    Fragment,
>)
    ensures
        match fragment_spec(*shape, curve@) {
            Some((points, closed)) => r matches Some(f) && f.points@ == points && f.is_closed == closed
                && f.label@ == shape_label(*shape, index as nat),
            None => r is None,
        },
{
    let label = shape_label_text(shape, index);
    match shape {
        BoardEdgeShape::Track { start, end, .. } | BoardEdgeShape::GraphicSegment { start, end, .. } => {
            let mut pts: Vec<(i64, i64)> = Vec::new();
            pts.push(nm(start));
            pts.push(nm(end));
            Some(Fragment { points: pts, is_closed: false, label })
        },
        BoardEdgeShape::Arc { end, .. } | BoardEdgeShape::GraphicArc { end, .. }
        | BoardEdgeShape::GraphicBezier { end, .. } => {
            let mut pts = copy_points(curve);
            pts.push(nm(end));
            if pts.len() < 2 {
                None
            } else {
                Some(Fragment { points: pts, is_closed: false, label })
            }
        },
        BoardEdgeShape::GraphicCircle { .. } | BoardEdgeShape::GraphicRectangle { .. } => {
            Some(Fragment { points: copy_points(curve), is_closed: true, label })
        },
        BoardEdgeShape::GraphicPolygon { .. } => None,
    }
}

// ---------------------------------------------------------------------------
// Chaining open fragments
// ---------------------------------------------------------------------------

/// The views of a list of polylines.
pub open spec fn polylines(v: Seq<Vec<(i64, i64)>>) -> Seq<Seq<(i64, i64)>> {
    v.map_values(|p: Vec<(i64, i64)>| p@)
}

/// The polylines of the open fragments, in order.
pub open spec fn open_polylines(frags: Seq<Fragment>) -> Seq<Seq<(i64, i64)>>
    decreases frags.len(),
{
    if frags.len() == 0 {
        seq![]
    } else {
        let rest = open_polylines(frags.drop_last());
        if frags.last().is_closed { rest } else { rest.push(frags.last().points@) }
    }
}

/// The labels of the open fragments, in order.
pub open spec fn open_labels(frags: Seq<Fragment>) -> Seq<Seq<char>>
    decreases frags.len(),
{
    if frags.len() == 0 {
        seq![]
    } else {
        let rest = open_labels(frags.drop_last());
        if frags.last().is_closed { rest } else { rest.push(frags.last().label@) }
    }
}

/// The polylines of the fragments that close on themselves, in order.
pub open spec fn closed_polylines(frags: Seq<Fragment>) -> Seq<Seq<(i64, i64)>>
    decreases frags.len(),
{
    if frags.len() == 0 {
        seq![]
    } else {
        let rest = closed_polylines(frags.drop_last());
        if frags.last().is_closed { rest.push(frags.last().points@) } else { rest }
    }
}

/// Whether the distances between the endpoints of two polylines can be computed,
/// in either order.
pub open spec fn ends_comparable(p: Seq<(i64, i64)>, q: Seq<(i64, i64)>) -> bool {
    &&& dist_defined(p[0], q[0])
    &&& dist_defined(p[0], q.last())
    &&& dist_defined(p.last(), q[0])
    &&& dist_defined(p.last(), q.last())
}

/// What stitching needs of its input: every open fragment has a point, and the
/// distance between any two open-fragment endpoints can be computed.
pub open spec fn stitchable(frags: Seq<Fragment>) -> bool {
    &&& forall|i: int| 0 <= i < frags.len() && !frags[i].is_closed ==> #[trigger] frags[i].points@.len() >= 1
    &&& forall|i: int, j: int|
        0 <= i < frags.len() && 0 <= j < frags.len() && !frags[i].is_closed && !frags[j].is_closed
            ==> ends_comparable(#[trigger] frags[i].points@, #[trigger] frags[j].points@)
}

/// The same condition on the open polylines themselves.
pub open spec fn polylines_ok(open: Seq<Seq<(i64, i64)>>) -> bool {
    &&& forall|i: int| 0 <= i < open.len() ==> #[trigger] open[i].len() >= 1
    &&& forall|i: int, j: int|
        0 <= i < open.len() && 0 <= j < open.len() ==> ends_comparable(#[trigger] open[i], #[trigger] open[j])
}

/// Whether `p` is the first or last point of one of the polylines.
pub open spec fn is_endpoint(open: Seq<Seq<(i64, i64)>>, p: (i64, i64)) -> bool {
    exists|a: int| 0 <= a < open.len() && (p == #[trigger] open[a][0] || p == open[a].last())
}

/// The first unused polyline, from index `from` on, with an end within tolerance of
/// `tail`.
pub open spec fn next_link(open: Seq<Seq<(i64, i64)>>, used: Seq<bool>, tail: (i64, i64), from: int) -> Option<
    int,
>
    decreases open.len() - from,
{
    if from < 0 || from >= open.len() {
        None
    } else if !used[from] && (close_spec(tail, open[from][0]) || close_spec(tail, open[from].last())) {
        Some(from)
    } else {
        next_link(open, used, tail, from + 1)
    }
}

/// `chain` extended by `frag`: forwards when the fragment's start meets the chain's
/// tail, else backwards; the shared point is not repeated.
pub open spec fn joined(chain: Seq<(i64, i64)>, frag: Seq<(i64, i64)>) -> Seq<(i64, i64)> {
    if close_spec(chain.last(), frag[0]) {
        chain + frag.skip(1)
    } else {
        chain + frag.reverse().skip(1)
    }
}

/// The number of polylines not yet taken into a chain.
pub open spec fn unused_count(used: Seq<bool>) -> nat
    decreases used.len(),
{
    if used.len() == 0 {
        0
    } else {
        unused_count(used.drop_last()) + if used.last() { 0nat } else { 1nat }
    }
}

/// Marking an unused polyline as taken lowers the count of unused ones by one.
pub proof fn lemma_unused_count_update(used: Seq<bool>, j: int)
    requires
        0 <= j < used.len(),
        !used[j],
    ensures
        unused_count(used.update(j, true)) + 1 == unused_count(used),
    decreases used.len(),
{
    if j == used.len() - 1 {
        assert(used.update(j, true).drop_last() =~= used.drop_last());
    } else {
        assert(used.update(j, true).drop_last() =~= used.drop_last().update(j, true));
        lemma_unused_count_update(used.drop_last(), j);
    }
}

/// A chain grown greedily from `chain`: until it closes on itself (more than two
/// points, ends within tolerance), the first unused polyline with an end at the
/// chain's tail is appended. Returns the chain and the updated use marks.
pub open spec fn grow(open: Seq<Seq<(i64, i64)>>, used: Seq<bool>, chain: Seq<(i64, i64)>) -> (Seq<
    (i64, i64),
>, Seq<bool>)
    decreases unused_count(used),
{
    if chain.len() > 2 && close_spec(chain[0], chain.last()) {
        (chain, used)
    } else {
        match next_link(open, used, chain.last(), 0) {
            Some(j) => if 0 <= j < used.len() && !used[j] {
                proof {
                    lemma_unused_count_update(used, j);
                }
                grow(open, used.update(j, true), joined(chain, open[j]))
            } else {
                (chain, used)
            },
            None => (chain, used),
        }
    }
}

/// The chains started, in order, from each polyline that no earlier chain took.
pub open spec fn chains_from(open: Seq<Seq<(i64, i64)>>, used: Seq<bool>, i: int) -> Seq<Seq<(i64, i64)>>
    decreases open.len() - i,
{
    if i < 0 || i >= open.len() {
        seq![]
    } else if used[i] {
        chains_from(open, used, i + 1)
    } else {
        let g = grow(open, used.update(i, true), open[i]);
        seq![g.0] + chains_from(open, g.1, i + 1)
    }
}

/// The chains that stitching builds from the open fragments.
pub open spec fn stitched_chains(frags: Seq<Fragment>) -> Seq<Seq<(i64, i64)>> {
    let open = open_polylines(frags);
    chains_from(open, Seq::new(open.len(), |k: int| false), 0)
}

/// A chain that closed: at least three points, ends within tolerance.
pub open spec fn closes(chain: Seq<(i64, i64)>) -> bool {
    chain.len() >= 3 && close_spec(chain[0], chain.last())
}

/// A chain that is reported open: its ends are apart, whatever its length. A chain
/// whose ends meet but that has fewer than three points is neither kept nor reported.
pub open spec fn stays_open(chain: Seq<(i64, i64)>) -> bool {
    !close_spec(chain[0], chain.last())
}

/// The chains that closed, in order.
pub open spec fn closing_chains(chains: Seq<Seq<(i64, i64)>>) -> Seq<Seq<(i64, i64)>>
    decreases chains.len(),
{
    if chains.len() == 0 {
        seq![]
    } else {
        let rest = closing_chains(chains.drop_last());
        if closes(chains.last()) { rest.push(chains.last()) } else { rest }
    }
}

/// The `k`th label, or `?` when there is none.
pub open spec fn label_at(labels: Seq<Seq<char>>, k: int) -> Seq<char> {
    if 0 <= k < labels.len() { labels[k] } else { "?"@ }
}

/// The polyline each chain of [`chains_from`] starts from, in the same order.
pub open spec fn chain_starts(open: Seq<Seq<(i64, i64)>>, used: Seq<bool>, i: int) -> Seq<int>
    decreases open.len() - i,
{
    if i < 0 || i >= open.len() {
        seq![]
    } else if used[i] {
        chain_starts(open, used, i + 1)
    } else {
        let g = grow(open, used.update(i, true), open[i]);
        seq![i] + chain_starts(open, g.1, i + 1)
    }
}

/// The open fragment each stitched chain starts from.
pub open spec fn stitched_starts(frags: Seq<Fragment>) -> Seq<int> {
    let open = open_polylines(frags);
    chain_starts(open, Seq::new(open.len(), |k: int| false), 0)
}

/// A chain that stays open, as reported: the label of the fragment it starts from,
/// its number of points, and the squared distance between its ends in nm².
#[derive(Clone, Debug)]
pub struct OpenChain {
    pub label: String,
    pub points: usize,
    pub gap_sq_nm2: i64,
}

/// An open chain by its parts.
pub open spec fn open_chain_view(c: OpenChain) -> (Seq<char>, nat, int) {
    (c.label@, c.points as nat, c.gap_sq_nm2 as int)
}

/// The chains that stay open, in order, each with the label of the fragment it
/// starts from (`starts[k]` for chain `k`).
pub open spec fn open_chains_of(chains: Seq<Seq<(i64, i64)>>, starts: Seq<int>, labels: Seq<Seq<char>>) -> Seq<
    (Seq<char>, nat, int),
>
    decreases chains.len(),
{
    if chains.len() == 0 {
        seq![]
    } else {
        let k = chains.len() - 1;
        let rest = open_chains_of(chains.drop_last(), starts, labels);
        if stays_open(chains[k]) {
            rest.push((label_at(labels, starts[k]), chains[k].len(), dist_sq_spec(chains[k][0], chains[k].last())))
        } else {
            rest
        }
    }
}

/// The message for a chain that stays open, `gap` being the distance between its ends
/// in micrometres as the operator reads it.
pub open spec fn open_chain_message_spec(label: Seq<char>, points: nat, gap: Seq<char>) -> Seq<char> {
    "open chain starting at fragment '"@ + label + "' ("@ + decimal(points) + "pts, gap "@ + gap + "µm)"@
}

/// The message for a chain that stays open, `gap` being the distance between its ends
/// in micrometres as the operator reads it.
pub fn open_chain_message(chain: &OpenChain, gap: &str) -> (r: String)
    ensures
        r@ == open_chain_message_spec(chain.label@, chain.points as nat, gap@),
{
    let mut s = String::new();
    s.append("open chain starting at fragment '");
    s.append(chain.label.as_str());
    s.append("' (");
    push_decimal(&mut s, chain.points as u64);
    s.append("pts, gap ");
    s.append(gap);
    s.append("µm)");
    s
}

proof fn lemma_chain_starts(open: Seq<Seq<(i64, i64)>>, used: Seq<bool>, i: int)
    requires
        0 <= i,
        used.len() == open.len(),
    ensures
        chain_starts(open, used, i).len() == chains_from(open, used, i).len(),
        forall|k: int|
            0 <= k < chain_starts(open, used, i).len() ==> i <= #[trigger] chain_starts(open, used, i)[k] < open.len(),
    decreases open.len() - i,
{
    if i < open.len() {
        if used[i] {
            lemma_chain_starts(open, used, i + 1);
        } else {
            let g = grow(open, used.update(i, true), open[i]);
            lemma_grow_len(open, used.update(i, true), open[i]);
            lemma_chain_starts(open, g.1, i + 1);
            let rest = chain_starts(open, g.1, i + 1);
            assert forall|k: int| 0 <= k < chain_starts(open, used, i).len() implies i <= #[trigger] chain_starts(
                open,
                used,
                i,
            )[k] < open.len() by {
                if k > 0 {
                    assert(chain_starts(open, used, i)[k] == rest[k - 1]);
                }
            }
        }
    }
}

proof fn lemma_grow_len(open: Seq<Seq<(i64, i64)>>, used: Seq<bool>, chain: Seq<(i64, i64)>)
    ensures
        grow(open, used, chain).1.len() == used.len(),
    decreases unused_count(used),
{
    if chain.len() > 2 && close_spec(chain[0], chain.last()) {
    } else {
        match next_link(open, used, chain.last(), 0) {
            Some(j) => if 0 <= j < used.len() && !used[j] {
                lemma_unused_count_update(used, j);
                lemma_grow_len(open, used.update(j, true), joined(chain, open[j]));
            },
            None => {},
        }
    }
}

fn find_link(open: &Vec<Vec<(i64, i64)>>, used: &Vec<bool>, tail: (i64, i64)) -> (r: Option<usize>)
    requires
        polylines_ok(polylines(open@)),
        is_endpoint(polylines(open@), tail),
        used@.len() == open@.len(),
    ensures
        match next_link(polylines(open@), used@, tail, 0) {
            Some(j) => r == Some(j as usize),
            None => r is None,
        },
{
    let ghost ps = polylines(open@);
    let mut j: usize = 0;
    while j < open.len()
        invariant
            ps == polylines(open@),
            polylines_ok(ps),
            is_endpoint(ps, tail),
            used@.len() == open@.len(),
            j <= open@.len(),
            next_link(ps, used@, tail, 0) == next_link(ps, used@, tail, j as int),
        decreases open@.len() - j,
    {
        if !used[j] {
            let frag = &open[j];
            assert(frag@ == ps[j as int]);
            proof {
                lemma_endpoints_comparable(ps, tail, ps[j as int][0]);
                lemma_endpoints_comparable(ps, tail, ps[j as int].last());
            }
            let fstart = frag[0];
            let fend = frag[frag.len() - 1];
            if close_enough(tail, fstart) || close_enough(tail, fend) {
                return Some(j);
            }
        }
        j += 1;
    }
    None
}

proof fn lemma_endpoints_comparable(open: Seq<Seq<(i64, i64)>>, p: (i64, i64), q: (i64, i64))
    requires
        polylines_ok(open),
        is_endpoint(open, p) || exists|a: int| 0 <= a < open.len() && p == open[a][0],
        is_endpoint(open, q) || exists|b: int| 0 <= b < open.len() && (q == open[b][0] || q == open[b].last()),
    ensures
        dist_defined(p, q),
{
    let a = choose|a: int| 0 <= a < open.len() && (p == #[trigger] open[a][0] || p == open[a].last());
    let b = choose|b: int| 0 <= b < open.len() && (q == #[trigger] open[b][0] || q == open[b].last());
    assert(ends_comparable(open[a], open[b]));
}

fn append_fragment(chain: &mut Vec<(i64, i64)>, frag: &Vec<(i64, i64)>, reversed: bool)
    requires
        frag@.len() >= 1,
    ensures
        final(chain)@ == old(chain)@ + if reversed {
            frag@.reverse().skip(1)
        } else {
            frag@.skip(1)
        },
{
    let n = frag.len();
    if reversed {
        let mut k: usize = n - 1;
        while k > 0
            invariant
                k <= n - 1,
                n == frag@.len(),
                chain@ == old(chain)@ + frag@.reverse().skip(1).take((n - 1 - k) as int),
            decreases k,
        {
            k -= 1;
            chain.push(frag[k]);
            assert(chain@ =~= old(chain)@ + frag@.reverse().skip(1).take((n - 1 - k) as int));
        }
        assert(frag@.reverse().skip(1).take((n - 1) as int) =~= frag@.reverse().skip(1));
    } else {
        let mut k: usize = 1;
        while k < n
            invariant
                1 <= k <= n,
                n == frag@.len(),
                chain@ == old(chain)@ + frag@.skip(1).take(k - 1),
            decreases n - k,
        {
            chain.push(frag[k]);
            k += 1;
            assert(chain@ =~= old(chain)@ + frag@.skip(1).take(k - 1));
        }
        assert(frag@.skip(1).take(n - 1) =~= frag@.skip(1));
    }
}

/// A chain under construction: it has a point, and both its ends are endpoints of
/// open polylines.
pub open spec fn chain_ok(open: Seq<Seq<(i64, i64)>>, c: Seq<(i64, i64)>) -> bool {
    c.len() >= 1 && is_endpoint(open, c[0]) && is_endpoint(open, c.last())
}

proof fn lemma_open_polylines(frags: Seq<Fragment>)
    ensures
        open_labels(frags).len() == open_polylines(frags).len(),
        forall|k: int|
            0 <= k < open_polylines(frags).len() ==> exists|m: int|
                0 <= m < frags.len() && !frags[m].is_closed && #[trigger] open_polylines(frags)[k]
                    == frags[m].points@,
    decreases frags.len(),
{
    if frags.len() > 0 {
        let rest = frags.drop_last();
        lemma_open_polylines(rest);
        assert forall|k: int| 0 <= k < open_polylines(frags).len() implies exists|m: int|
            0 <= m < frags.len() && !frags[m].is_closed && #[trigger] open_polylines(frags)[k]
                == frags[m].points@ by {
            if k < open_polylines(rest).len() {
                assert(open_polylines(frags)[k] == open_polylines(rest)[k]);
                let m = choose|m: int|
                    0 <= m < rest.len() && !rest[m].is_closed && #[trigger] open_polylines(rest)[k]
                        == rest[m].points@;
                assert(rest[m] == frags[m]);
            } else {
                assert(open_polylines(frags)[k] == frags[frags.len() - 1].points@);
            }
        }
    }
}

proof fn lemma_stitchable_open(frags: Seq<Fragment>)
    requires
        stitchable(frags),
    ensures
        polylines_ok(open_polylines(frags)),
        open_labels(frags).len() == open_polylines(frags).len(),
{
    lemma_open_polylines(frags);
    let open = open_polylines(frags);
    assert forall|i: int| 0 <= i < open.len() implies #[trigger] open[i].len() >= 1 by {
        let m = choose|m: int| 0 <= m < frags.len() && !frags[m].is_closed && #[trigger] open[i] == frags[m].points@;
        assert(frags[m].points@.len() >= 1);
    }
    assert forall|i: int, j: int| 0 <= i < open.len() && 0 <= j < open.len() implies ends_comparable(
        #[trigger] open[i],
        #[trigger] open[j],
    ) by {
        let m = choose|m: int| 0 <= m < frags.len() && !frags[m].is_closed && #[trigger] open[i] == frags[m].points@;
        let n = choose|n: int| 0 <= n < frags.len() && !frags[n].is_closed && #[trigger] open[j] == frags[n].points@;
        assert(ends_comparable(frags[m].points@, frags[n].points@));
    }
}

proof fn lemma_next_link(open: Seq<Seq<(i64, i64)>>, used: Seq<bool>, tail: (i64, i64), from: int)
    requires
        used.len() == open.len(),
        0 <= from,
    ensures
        next_link(open, used, tail, from) matches Some(j) ==> from <= j < open.len() && !used[j] && (
        close_spec(tail, open[j][0]) || close_spec(tail, open[j].last())),
    decreases open.len() - from,
{
    if from < open.len() {
        lemma_next_link(open, used, tail, from + 1);
    }
}

/// Chains the open fragments into polylines. Fragments that close on themselves are
/// kept as they are; open ones are chained greedily by matching endpoints within
/// [`STITCH_TOLERANCE_NM`]. Returns the closed polylines (self-closing fragments
/// first, then the chains that closed) and the chains that stay open, each labelled
/// by the fragment it starts from.
pub fn stitch_fragments(fragments: Vec<Fragment>) -> (r: (Vec<Vec<(i64, i64)>>, Vec<OpenChain>))
    requires
        stitchable(fragments@),
    ensures
        polylines(r.0@) == closed_polylines(fragments@) + closing_chains(stitched_chains(fragments@)),
        r.1@.map_values(|c: OpenChain| open_chain_view(c)) == open_chains_of(
            stitched_chains(fragments@),
            stitched_starts(fragments@),
            open_labels(fragments@),
        ),
{
    let mut closed: Vec<Vec<(i64, i64)>> = Vec::new();
    let mut warnings: Vec<OpenChain> = Vec::new();
    let mut open: Vec<Vec<(i64, i64)>> = Vec::new();
    let mut open_labels_v: Vec<String> = Vec::new();

    let mut k: usize = 0;
    while k < fragments.len()
        invariant
            k <= fragments@.len(),
            polylines(closed@) == closed_polylines(fragments@.take(k as int)),
            polylines(open@) == open_polylines(fragments@.take(k as int)),
            texts(open_labels_v@) == open_labels(fragments@.take(k as int)),
        decreases fragments@.len() - k,
    {
        assert(fragments@.take(k + 1).drop_last() =~= fragments@.take(k as int));
        let f = &fragments[k];
        if f.is_closed {
            let pts = copy_points(&f.points);
            closed.push(pts);
            assert(polylines(closed@) =~= closed_polylines(fragments@.take(k + 1)));
        } else {
            let pts = copy_points(&f.points);
            open.push(pts);
            open_labels_v.push(f.label.clone());
            assert(polylines(open@) =~= open_polylines(fragments@.take(k + 1)));
            assert(texts(open_labels_v@) =~= open_labels(fragments@.take(k + 1)));
        }
        k += 1;
    }
    assert(fragments@.take(k as int) =~= fragments@);
    let ghost ps = polylines(open@);
    let ghost labels = texts(open_labels_v@);
    proof {
        lemma_stitchable_open(fragments@);
    }

    let n = open.len();
    let mut used: Vec<bool> = Vec::new();
    while used.len() < n
        invariant
            used@.len() <= n,
            forall|t: int| 0 <= t < used@.len() ==> !used@[t],
        decreases n - used@.len(),
    {
        used.push(false);
    }
    assert(used@ =~= Seq::new(ps.len(), |t: int| false));
    let ghost all = stitched_chains(fragments@);
    let ghost all_starts = stitched_starts(fragments@);

    let mut chains: Vec<Vec<(i64, i64)>> = Vec::new();
    let mut starts: Vec<usize> = Vec::new();
    let mut i: usize = 0;
    while i < n
        invariant
            n == open@.len(),
            ps == polylines(open@),
            polylines_ok(ps),
            used@.len() == n,
            i <= n,
            all == polylines(chains@) + chains_from(ps, used@, i as int),
            all_starts == starts@.map_values(|x: usize| x as int) + chain_starts(ps, used@, i as int),
            forall|c: int| 0 <= c < chains@.len() ==> chain_ok(ps, #[trigger] chains@[c]@),
        decreases n - i,
    {
        if used[i] {
            assert(chains_from(ps, used@, i as int) == chains_from(ps, used@, i + 1));
            assert(chain_starts(ps, used@, i as int) == chain_starts(ps, used@, i + 1));
        } else {
            let ghost used0 = used@;
            used.set(i, true);
            let mut chain = copy_points(&open[i]);
            assert(chain@ == ps[i as int]);
            let ghost target = grow(ps, used@, ps[i as int]);
            assert(chains_from(ps, used0, i as int) == seq![target.0] + chains_from(ps, target.1, i + 1));
            assert(chain_starts(ps, used0, i as int) == seq![i as int] + chain_starts(ps, target.1, i + 1));
            assert(is_endpoint(ps, ps[i as int][0]));
            assert(is_endpoint(ps, ps[i as int].last()));
            loop
                invariant
                    n == open@.len(),
                    ps == polylines(open@),
                    polylines_ok(ps),
                    used@.len() == n,
                    grow(ps, used@, chain@) == target,
                    chain_ok(ps, chain@),
                ensures
                    (chain@, used@) == target,
                    used@.len() == n,
                    chain_ok(ps, chain@),
                decreases unused_count(used@),
            {
                let head = chain[0];
                let tail = chain[chain.len() - 1];
                proof {
                    lemma_endpoints_comparable(ps, head, tail);
                }
                if close_enough(head, tail) && chain.len() > 2 {
                    break;
                }
                match find_link(&open, &used, tail) {
                    None => {
                        break;
                    },
                    Some(j) => {
                        proof {
                            lemma_next_link(ps, used@, tail, 0);
                            lemma_unused_count_update(used@, j as int);
                            lemma_endpoints_comparable(ps, tail, ps[j as int][0]);
                        }
                        let frag = &open[j];
                        assert(frag@ == ps[j as int]);
                        let reversed = !close_enough(tail, frag[0]);
                        let ghost before = chain@;
                        used.set(j, true);
                        append_fragment(&mut chain, frag, reversed);
                        proof {
                            assert(chain@ == joined(before, ps[j as int]));
                            assert(chain@[0] == before[0]);
                            assert(is_endpoint(ps, ps[j as int][0]));
                            if frag@.len() >= 2 {
                                if reversed {
                                    assert(chain@.last() == ps[j as int][0]);
                                } else {
                                    assert(chain@.last() == ps[j as int].last());
                                }
                            } else {
                                assert(chain@ =~= before);
                            }
                        }
                    },
                }
            }
            chains.push(chain);
            let ghost prev_starts = starts@;
            starts.push(i);
            proof {
                assert(polylines(chains@) =~= polylines(chains@.drop_last()).push(target.0));
                assert(all == polylines(chains@) + chains_from(ps, used@, i + 1));
                assert(starts@.map_values(|x: usize| x as int) =~= prev_starts.map_values(|x: usize| x as int).push(
                    i as int,
                ));
                assert(all_starts == starts@.map_values(|x: usize| x as int) + chain_starts(ps, used@, i + 1));
            }
        }
        i += 1;
    }
    assert(all =~= polylines(chains@));
    assert(all_starts =~= starts@.map_values(|x: usize| x as int));
    proof {
        lemma_chain_starts(ps, Seq::new(ps.len(), |t: int| false), 0);
        lemma_open_polylines(fragments@);
        assert(all_starts == chain_starts(ps, Seq::new(ps.len(), |t: int| false), 0));
        assert(open_labels_v@.len() == labels.len());
        assert forall|k: int| 0 <= k < starts@.len() implies #[trigger] starts@[k] < open_labels_v@.len() by {
            assert(all_starts[k] == starts@[k] as int);
        }
    }

    let mut idx: usize = 0;
    while idx < chains.len()
        invariant
            ps == polylines(open@),
            polylines_ok(ps),
            all == polylines(chains@),
            labels == texts(open_labels_v@),
            labels == open_labels(fragments@),
            forall|c: int| 0 <= c < chains@.len() ==> chain_ok(ps, #[trigger] chains@[c]@),
            idx <= chains@.len(),
            all_starts == starts@.map_values(|x: usize| x as int),
            starts@.len() == chains@.len(),
            forall|k: int| 0 <= k < starts@.len() ==> #[trigger] starts@[k] < open_labels_v@.len(),
            polylines(closed@) == closed_polylines(fragments@) + closing_chains(all.take(idx as int)),
            warnings@.map_values(|c: OpenChain| open_chain_view(c)) == open_chains_of(
                all.take(idx as int),
                all_starts,
                labels,
            ),
        decreases chains@.len() - idx,
    {
        let chain = &chains[idx];
        assert(chain_ok(ps, chains@[idx as int]@));
        let head = chain[0];
        let tail = chain[chain.len() - 1];
        proof {
            lemma_endpoints_comparable(ps, head, tail);
            assert(all.take(idx + 1).drop_last() =~= all.take(idx as int));
            assert(all.take(idx + 1).last() == chain@);
        }
        if close_enough(head, tail) {
            if chain.len() >= 3 {
                let ghost before = polylines(closed@);
                closed.push(copy_points(chain));
                assert(closes(chain@));
                assert(closing_chains(all.take(idx + 1)) == closing_chains(all.take(idx as int)).push(chain@));
                assert(polylines(closed@) =~= before.push(chain@));
                assert(polylines(closed@) =~= closed_polylines(fragments@) + closing_chains(all.take(idx + 1)));
            } else {
                assert(closing_chains(all.take(idx + 1)) == closing_chains(all.take(idx as int)));
            }
            assert(open_chains_of(all.take(idx + 1), all_starts, labels) == open_chains_of(
                all.take(idx as int),
                all_starts,
                labels,
            ));
        } else {
            let start = starts[idx];
            let label = open_labels_v[start].clone();
            assert(label@ == label_at(labels, all_starts[idx as int]));
            let w = OpenChain { label, points: chain.len(), gap_sq_nm2: dist_sq(head, tail) };
            let ghost prev = warnings@;
            warnings.push(w);
            assert(warnings@.map_values(|c: OpenChain| open_chain_view(c)) =~= prev.map_values(
                |c: OpenChain| open_chain_view(c),
            ).push(open_chain_view(w)));
            assert(closing_chains(all.take(idx + 1)) == closing_chains(all.take(idx as int)));
        }
        idx += 1;
    }
    assert(all.take(idx as int) =~= all);
    (closed, warnings)
}

// ---------------------------------------------------------------------------
// Nesting and validation
// ---------------------------------------------------------------------------

/// A closed, ordered polygon in nm; the last point joins the first.
#[derive(Clone, Debug)]
pub struct Contour {
    pub points: Vec<(i64, i64)>,
    /// An inner boundary (odd nesting depth), routed on its outside.
    pub is_hole: bool,
}

/// The stitched board outline. The contours are usable only when `errors` is empty.
#[derive(Clone, Debug)]
pub struct StitchResult {
    /// Closed contours, outer boundaries first, larger before smaller at one depth.
    pub contours: Vec<Contour>,
    /// Problems that stop the board from being processed: open contours and
    /// floating islands (contours at depth two or more).
    pub errors: Vec<String>,
}

/// The absolute area of a polygon.
pub open spec fn abs_area(pts: Seq<(i64, i64)>) -> int {
    let a = signed_area_spec(pts);
    if a < 0 { -a } else { a }
}

/// Whether a contour of nesting key `a` sorts after one of key `b`; a key is
/// `(depth, absolute area)`. Shallower first; at one depth, larger first.
pub open spec fn sorts_after(a: (int, int), b: (int, int)) -> bool {
    a.0 > b.0 || (a.0 == b.0 && a.1 < b.1)
}

/// The first position, from `from` on, of an entry of `order` that sorts after
/// entry `e`; the end of `order` when none does.
pub open spec fn first_after(order: Seq<int>, keys: Seq<(int, int)>, e: int, from: int) -> int
    decreases order.len() - from,
{
    if from < 0 || from >= order.len() {
        order.len() as int
    } else if sorts_after(keys[order[from]], keys[e]) {
        from
    } else {
        first_after(order, keys, e, from + 1)
    }
}

/// The stable order of the first `n` contours by key, as indices: each contour
/// goes after every earlier one that does not sort after it.
pub open spec fn nest_order(keys: Seq<(int, int)>, n: int) -> Seq<int>
    decreases n,
{
    if n <= 0 {
        seq![]
    } else {
        let order = nest_order(keys, n - 1);
        order.insert(first_after(order, keys, n - 1, 0), n - 1)
    }
}

/// The nesting key of each closed polyline.
pub open spec fn nest_keys(closed: Seq<Seq<(i64, i64)>>, depths: Seq<usize>) -> Seq<(int, int)> {
    Seq::new(closed.len(), |i: int| (depths[i] as int, abs_area(closed[i])))
}

/// The error for a contour nested two or more deep, `bbox` being its bounding box as
/// the operator reads it.
pub open spec fn island_message(depth: usize, bbox: Seq<char>) -> Seq<char> {
    "Floating island at depth "@ + decimal(depth as nat) + " (contour inside a hole) — bbox "@ + bbox + " mm"@
}

/// The island errors, one for each contour in `order` whose depth is two or more.
pub open spec fn island_errors(order: Seq<int>, bbox_texts: Seq<Seq<char>>, depths: Seq<usize>) -> Seq<
    Seq<char>,
>
    decreases order.len(),
{
    if order.len() == 0 {
        seq![]
    } else {
        let rest = island_errors(order.drop_last(), bbox_texts, depths);
        let i = order.last();
        if depths[i] >= 2 { rest.push(island_message(depths[i], bbox_texts[i])) } else { rest }
    }
}

/// `Open contour: <w>` for each open-chain message.
pub open spec fn open_contour_errors(warnings: Seq<Seq<char>>) -> Seq<Seq<char>> {
    warnings.map_values(|w: Seq<char>| "Open contour: "@ + w)
}

fn island_text(depth: usize, bbox: &String) -> (r: String)
    ensures
        r@ == island_message(depth, bbox@),
{
    let mut s = String::new();
    s.append("Floating island at depth ");
    push_decimal(&mut s, depth as u64);
    s.append(" (contour inside a hole) — bbox ");
    s.append(bbox.as_str());
    s.append(" mm");
    s
}

fn abs_i128(a: i128) -> (r: u128)
    ensures
        r == (if a < 0 { -a } else { a as int }),
{
    if a < 0 {
        if a == i128::MIN { 0x8000_0000_0000_0000_0000_0000_0000_0000u128 } else { (-a) as u128 }
    } else {
        a as u128
    }
}

fn entry_sorts_after(depths: &Vec<usize>, areas: &Vec<u128>, a: usize, b: usize) -> (r: bool)
    requires
        a < depths@.len(),
        b < depths@.len(),
        depths@.len() == areas@.len(),
    ensures
        r == sorts_after((depths@[a as int] as int, areas@[a as int] as int), (depths@[b as int] as int, areas@[b as int] as int)),
{
    depths[a] > depths[b] || (depths[a] == depths[b] && areas[a] < areas[b])
}

/// The indices of `order` as integers.
pub open spec fn indices(order: Seq<usize>) -> Seq<int> {
    order.map_values(|x: usize| x as int)
}

/// Orders and checks the closed polylines of a board outline. `depths[i]` is the
/// number of other polylines that contain polyline `i` (computed by the caller with a
/// point-in-polygon test) and `bbox_texts[i]` its bounding box as the operator reads
/// it; `open_chain_warnings` are the messages of the open chains. Each becomes an
/// `Open contour: ` error; each contour at depth two or more adds a floating-island
/// error. Contours at odd depth are holes. With no closed polyline there are no
/// contours.
pub fn nest_contours(
    closed: Vec<Vec<(i64, i64)>>,
    depths: Vec<usize>,
    bbox_texts: Vec<String>,
    open_chain_warnings: Vec<String>,
) -> (r: StitchResult)
    requires
        depths@.len() == closed@.len(),
        bbox_texts@.len() == closed@.len(),
        forall|i: int| 0 <= i < closed@.len() ==> area_defined(#[trigger] closed@[i]@),
    ensures
        ({
            let order = nest_order(nest_keys(polylines(closed@), depths@), closed@.len() as int);
            &&& r.contours@.len() == order.len()
            &&& forall|k: int|
                0 <= k < order.len() ==> (#[trigger] r.contours@[k]).points@ == closed@[order[k]]@
                    && r.contours@[k].is_hole == (depths@[order[k]] % 2 == 1)
            &&& texts(r.errors@) == open_contour_errors(texts(open_chain_warnings@)) + island_errors(
                order,
                texts(bbox_texts@),
                depths@,
            )
        }),
{
    let ghost ps = polylines(closed@);
    let ghost keys = nest_keys(ps, depths@);
    let mut errors: Vec<String> = Vec::new();
    let mut w: usize = 0;
    while w < open_chain_warnings.len()
        invariant
            w <= open_chain_warnings@.len(),
            texts(errors@) == open_contour_errors(texts(open_chain_warnings@).take(w as int)),
        decreases open_chain_warnings@.len() - w,
    {
        let mut e = String::new();
        e.append("Open contour: ");
        e.append(open_chain_warnings[w].as_str());
        assert(e@ == "Open contour: "@ + texts(open_chain_warnings@)[w as int]);
        let ghost prev = errors@;
        errors.push(e);
        assert(texts(errors@) =~= texts(prev).push(e@));
        w += 1;
        assert(texts(errors@) =~= open_contour_errors(texts(open_chain_warnings@).take(w as int)));
    }
    assert(texts(open_chain_warnings@).take(w as int) =~= texts(open_chain_warnings@));
    let n = closed.len();
    if n == 0 {
        assert(nest_order(keys, 0) =~= Seq::<int>::empty());
        assert(island_errors(seq![], texts(bbox_texts@), depths@) =~= Seq::<Seq<char>>::empty());
        assert(texts(errors@) =~= texts(errors@) + Seq::<Seq<char>>::empty());
        return StitchResult { contours: Vec::new(), errors };
    }
    let mut areas: Vec<u128> = Vec::new();
    while areas.len() < n
        invariant
            areas@.len() <= n,
            n == closed@.len(),
            ps == polylines(closed@),
            forall|i: int| 0 <= i < closed@.len() ==> area_defined(#[trigger] closed@[i]@),
            forall|i: int| 0 <= i < areas@.len() ==> areas@[i] == abs_area(#[trigger] ps[i]),
        decreases n - areas@.len(),
    {
        let i = areas.len();
        let a = signed_area_nm2(closed[i].as_slice());
        areas.push(abs_i128(a));
    }
    let mut order: Vec<usize> = Vec::new();
    let mut e: usize = 0;
    while e < n
        invariant
            e <= n,
            n == closed@.len(),
            n == depths@.len(),
            n == areas@.len(),
            keys == nest_keys(ps, depths@),
            ps == polylines(closed@),
            forall|i: int| 0 <= i < n ==> areas@[i] == abs_area(#[trigger] ps[i]),
            indices(order@) == nest_order(keys, e as int),
            forall|k: int| 0 <= k < order@.len() ==> order@[k] < e,
        decreases n - e,
    {
        let ghost ord = indices(order@);
        let mut p: usize = 0;
        while p < order.len()
            invariant
                p <= order@.len(),
                e < n,
                n == closed@.len(),
                n == depths@.len(),
                n == areas@.len(),
                keys == nest_keys(ps, depths@),
                ps == polylines(closed@),
                forall|i: int| 0 <= i < n ==> areas@[i] == abs_area(#[trigger] ps[i]),
                ord == indices(order@),
                forall|k: int| 0 <= k < order@.len() ==> order@[k] < e,
                first_after(ord, keys, e as int, 0) == first_after(ord, keys, e as int, p as int),
            ensures
                p <= order@.len(),
                first_after(ord, keys, e as int, 0) == p as int,
            decreases order@.len() - p,
        {
            let o = order[p];
            assert(ps.len() == n);
            assert(ord[p as int] == o as int);
            assert(areas@[o as int] == abs_area(ps[o as int]));
            assert(areas@[e as int] == abs_area(ps[e as int]));
            assert(keys[o as int] == (depths@[o as int] as int, areas@[o as int] as int));
            assert(keys[e as int] == (depths@[e as int] as int, areas@[e as int] as int));
            if entry_sorts_after(&depths, &areas, o, e) {
                assert(first_after(ord, keys, e as int, p as int) == p as int);
                break;
            }
            p += 1;
        }
        order.insert(p, e);
        assert(indices(order@) =~= ord.insert(p as int, e as int));
        e += 1;
    }

    let mut contours: Vec<Contour> = Vec::new();
    let ghost head = texts(errors@);
    let ghost ord = indices(order@);
    let mut k: usize = 0;
    while k < order.len()
        invariant
            n == closed@.len(),
            n == depths@.len(),
            ps == polylines(closed@),
            ord == indices(order@),
            ord == nest_order(keys, n as int),
            forall|t: int| 0 <= t < order@.len() ==> order@[t] < n,
            k <= order@.len(),
            contours@.len() == k,
            forall|t: int|
                0 <= t < k ==> (#[trigger] contours@[t]).points@ == closed@[ord[t]]@ && contours@[t].is_hole == (
                depths@[ord[t]] % 2 == 1),
            bbox_texts@.len() == n,
            texts(errors@) == head + island_errors(ord.take(k as int), texts(bbox_texts@), depths@),
        decreases order@.len() - k,
    {
        let i = order[k];
        let d = depths[i];
        assert(ord.take(k + 1).drop_last() =~= ord.take(k as int));
        assert(ord.take(k + 1).last() == i as int);
        assert(ps[i as int] == closed@[i as int]@);
        if d >= 2 {
            let msg = island_text(d, &bbox_texts[i]);
            let ghost prev = errors@;
            errors.push(msg);
            assert(texts(errors@) =~= texts(prev).push(island_message(d, texts(bbox_texts@)[i as int])));
            assert(texts(errors@) =~= head + island_errors(ord.take(k + 1), texts(bbox_texts@), depths@));
        } else {
            assert(island_errors(ord.take(k + 1), texts(bbox_texts@), depths@) == island_errors(
                ord.take(k as int),
                texts(bbox_texts@),
                depths@,
            ));
        }
        contours.push(Contour { points: copy_points(&closed[i]), is_hole: d % 2 == 1 });
        k += 1;
    }
    assert(ord.take(k as int) =~= ord);
    StitchResult { contours, errors }
}

/// The offset paths of a set of contours sorted into outer paths and hole paths:
/// `offsets[i]` is what offsetting contour `i` by the tool radius gave. Contours
/// without points contribute nothing.
pub open spec fn offsets_of(contours: Seq<Contour>, offsets: Seq<Seq<Seq<(i64, i64)>>>, holes: bool) -> Seq<
    Seq<(i64, i64)>,
>
    decreases contours.len(),
{
    if contours.len() == 0 {
        seq![]
    } else {
        let k = contours.len() - 1;
        let rest = offsets_of(contours.drop_last(), offsets, holes);
        if contours[k].points@.len() > 0 && contours[k].is_hole == holes {
            rest + offsets[k]
        } else {
            rest
        }
    }
}

/// Collects the offset paths into `(outer_paths, hole_paths)`; `offsets[i]` belongs to
/// `contours[i]`.
pub fn split_offsets(contours: &Vec<Contour>, offsets: Vec<Vec<Vec<(i64, i64)>>>) -> (r: (
    Vec<Vec<(i64, i64)>>,
    Vec<Vec<(i64, i64)>>,
))
    requires
        offsets@.len() == contours@.len(),
    ensures
        polylines(r.0@) == offsets_of(contours@, offsets@.map_values(|o: Vec<Vec<(i64, i64)>>| polylines(o@)), false),
        polylines(r.1@) == offsets_of(contours@, offsets@.map_values(|o: Vec<Vec<(i64, i64)>>| polylines(o@)), true),
{
    let ghost os = offsets@.map_values(|o: Vec<Vec<(i64, i64)>>| polylines(o@));
    let mut outer: Vec<Vec<(i64, i64)>> = Vec::new();
    let mut holes: Vec<Vec<(i64, i64)>> = Vec::new();
    let mut i: usize = 0;
    while i < contours.len()
        invariant
            i <= contours@.len(),
            offsets@.len() == contours@.len(),
            os == offsets@.map_values(|o: Vec<Vec<(i64, i64)>>| polylines(o@)),
            polylines(outer@) == offsets_of(contours@.take(i as int), os, false),
            polylines(holes@) == offsets_of(contours@.take(i as int), os, true),
        decreases contours@.len() - i,
    {
        assert(contours@.take(i + 1).drop_last() =~= contours@.take(i as int));
        let c = &contours[i];
        if c.points.len() > 0 {
            let paths = &offsets[i];
            let ghost before_outer = polylines(outer@);
            let ghost before_holes = polylines(holes@);
            let mut t: usize = 0;
            while t < paths.len()
                invariant
                    t <= paths@.len(),
                    i < offsets@.len(),
                    paths@ == offsets@[i as int]@,
                    c.is_hole ==> polylines(holes@) == before_holes + polylines(paths@.take(t as int)),
                    c.is_hole ==> polylines(outer@) == before_outer,
                    !c.is_hole ==> polylines(outer@) == before_outer + polylines(paths@.take(t as int)),
                    !c.is_hole ==> polylines(holes@) == before_holes,
                decreases paths@.len() - t,
            {
                let p = copy_points(&paths[t]);
                assert(polylines(paths@.take(t + 1)) =~= polylines(paths@.take(t as int)).push(paths@[t as int]@));
                if c.is_hole {
                    let ghost prev = holes@;
                    holes.push(p);
                    assert(polylines(holes@) =~= polylines(prev).push(p@));
                } else {
                    let ghost prev = outer@;
                    outer.push(p);
                    assert(polylines(outer@) =~= polylines(prev).push(p@));
                }
                t += 1;
            }
            assert(paths@.take(t as int) =~= paths@);
            assert(os[i as int] == polylines(paths@));
        }
        i += 1;
    }
    assert(contours@.take(i as int) =~= contours@);
    (outer, holes)
}

// ---------------------------------------------------------------------------
// Laws
// ---------------------------------------------------------------------------

/// Every chain kept as a closed polyline has at least three points and ends within
/// the stitching tolerance of where it starts.
pub proof fn lemma_kept_chains_close(chains: Seq<Seq<(i64, i64)>>)
    ensures
        forall|k: int| 0 <= k < closing_chains(chains).len() ==> closes(#[trigger] closing_chains(chains)[k]),
    decreases chains.len(),
{
    if chains.len() > 0 {
        let rest = closing_chains(chains.drop_last());
        lemma_kept_chains_close(chains.drop_last());
        assert forall|k: int| 0 <= k < closing_chains(chains).len() implies closes(
            #[trigger] closing_chains(chains)[k],
        ) by {
            if k < rest.len() {
                assert(closing_chains(chains)[k] == rest[k]);
            }
        }
    }
}

/// One open chain is reported per chain that stays open, and none for another.
pub proof fn lemma_one_warning_per_open_chain(chains: Seq<Seq<(i64, i64)>>, starts: Seq<int>, labels: Seq<Seq<char>>)
    ensures
        open_chains_of(chains, starts, labels).len() == chains.filter(|c: Seq<(i64, i64)>| stays_open(c)).len(),
    decreases chains.len(),
{
    reveal(Seq::filter);
    if chains.len() > 0 {
        lemma_one_warning_per_open_chain(chains.drop_last(), starts, labels);
    }
}

proof fn lemma_first_after(order: Seq<int>, keys: Seq<(int, int)>, e: int, from: int)
    requires
        0 <= from <= order.len(),
    ensures
        from <= first_after(order, keys, e, from) <= order.len(),
        forall|i: int|
            from <= i < first_after(order, keys, e, from) ==> !sorts_after(keys[#[trigger] order[i]], keys[e]),
        first_after(order, keys, e, from) < order.len() ==> sorts_after(
            keys[order[first_after(order, keys, e, from)]],
            keys[e],
        ),
    decreases order.len() - from,
{
    if from < order.len() {
        lemma_first_after(order, keys, e, from + 1);
    }
}

/// Whether an order lists no entry before one that sorts ahead of it.
pub open spec fn in_nesting_order(order: Seq<int>, keys: Seq<(int, int)>) -> bool {
    forall|i: int, j: int| 0 <= i < j < order.len() ==> !sorts_after(keys[#[trigger] order[i]], keys[#[trigger] order[j]])
}

/// Contours come shallowest first and, at one depth, largest first; every contour
/// appears exactly once.
pub proof fn lemma_contours_outer_first(keys: Seq<(int, int)>, n: int)
    requires
        0 <= n <= keys.len(),
    ensures
        nest_order(keys, n).len() == n,
        forall|i: int| 0 <= i < n ==> 0 <= #[trigger] nest_order(keys, n)[i] < n,
        forall|i: int, j: int| 0 <= i < j < n ==> #[trigger] nest_order(keys, n)[i] != #[trigger] nest_order(keys, n)[j],
        in_nesting_order(nest_order(keys, n), keys),
    decreases n,
{
    if n > 0 {
        let order = nest_order(keys, n - 1);
        lemma_contours_outer_first(keys, n - 1);
        let p = first_after(order, keys, n - 1, 0);
        lemma_first_after(order, keys, n - 1, 0);
        let next = order.insert(p, n - 1);
        assert(next == nest_order(keys, n));
        assert forall|i: int| 0 <= i < n implies 0 <= #[trigger] next[i] < n by {
            if i < p {
                assert(next[i] == order[i]);
            } else if i > p {
                assert(next[i] == order[i - 1]);
            }
        }
        assert forall|i: int, j: int| 0 <= i < j < n implies #[trigger] next[i] != #[trigger] next[j] by {
            if i < p && j > p {
                assert(next[j] == order[j - 1]);
            } else if i > p {
                assert(next[i] == order[i - 1] && next[j] == order[j - 1]);
            }
        }
        assert forall|i: int, j: int| 0 <= i < j < next.len() implies !sorts_after(
            keys[#[trigger] next[i]],
            keys[#[trigger] next[j]],
        ) by {
            if j < p {
            } else if j == p {
                assert(next[i] == order[i]);
            } else if i < p {
                assert(next[i] == order[i]);
                assert(next[j] == order[j - 1]);
            } else if i == p {
                assert(next[j] == order[j - 1]);
                assert(sorts_after(keys[order[p]], keys[n - 1]));
                if p < j - 1 {
                    assert(!sorts_after(keys[order[p]], keys[order[j - 1]]));
                }
            } else {
                assert(next[i] == order[i - 1]);
                assert(next[j] == order[j - 1]);
            }
        }
    }
}

/// The number of points in a list of polylines.
pub open spec fn points_in(chains: Seq<Seq<(i64, i64)>>) -> int
    decreases chains.len(),
{
    if chains.len() == 0 {
        0
    } else {
        chains[0].len() + points_in(chains.drop_first())
    }
}

/// The points the first `n` polylines bring to a chain beyond the one each shares
/// with what it joins: each polyline's length less one.
pub open spec fn joinable_points(open: Seq<Seq<(i64, i64)>>, n: int) -> int
    decreases n,
{
    if n <= 0 {
        0
    } else {
        joinable_points(open, n - 1) + open[n - 1].len() - 1
    }
}

/// The joinable points of the first `n` polylines not yet taken into a chain.
pub open spec fn spare_points(open: Seq<Seq<(i64, i64)>>, used: Seq<bool>, n: int) -> int
    decreases n,
{
    if n <= 0 {
        0
    } else {
        spare_points(open, used, n - 1) + if used[n - 1] { 0 } else { open[n - 1].len() - 1 }
    }
}

proof fn lemma_spare_points_update(open: Seq<Seq<(i64, i64)>>, used: Seq<bool>, j: int, n: int)
    requires
        0 <= j < n <= used.len(),
        !used[j],
    ensures
        spare_points(open, used.update(j, true), n) == spare_points(open, used, n) - (open[j].len() - 1),
    decreases n,
{
    if n - 1 > j {
        lemma_spare_points_update(open, used, j, n - 1);
    } else {
        assert(n - 1 == j);
        lemma_spare_points_same(open, used, used.update(j, true), n - 1);
    }
}

proof fn lemma_spare_points_same(open: Seq<Seq<(i64, i64)>>, a: Seq<bool>, b: Seq<bool>, n: int)
    requires
        0 <= n <= a.len(),
        n <= b.len(),
        forall|k: int| 0 <= k < n ==> a[k] == b[k],
    ensures
        spare_points(open, a, n) == spare_points(open, b, n),
    decreases n,
{
    if n > 0 {
        lemma_spare_points_same(open, a, b, n - 1);
    }
}

proof fn lemma_spare_points_all_used(open: Seq<Seq<(i64, i64)>>, used: Seq<bool>, n: int)
    requires
        0 <= n <= used.len(),
        forall|k: int| 0 <= k < n ==> used[k],
    ensures
        spare_points(open, used, n) == 0,
    decreases n,
{
    if n > 0 {
        lemma_spare_points_all_used(open, used, n - 1);
    }
}

proof fn lemma_spare_points_none_used(open: Seq<Seq<(i64, i64)>>, used: Seq<bool>, n: int)
    requires
        0 <= n <= used.len(),
        forall|k: int| 0 <= k < n ==> !used[k],
    ensures
        spare_points(open, used, n) == joinable_points(open, n),
    decreases n,
{
    if n > 0 {
        lemma_spare_points_none_used(open, used, n - 1);
    }
}

proof fn lemma_grow_counts(open: Seq<Seq<(i64, i64)>>, used: Seq<bool>, chain: Seq<(i64, i64)>)
    requires
        forall|k: int| 0 <= k < open.len() ==> #[trigger] open[k].len() >= 1,
        used.len() == open.len(),
    ensures
        grow(open, used, chain).1.len() == used.len(),
        forall|k: int| 0 <= k < used.len() && used[k] ==> #[trigger] grow(open, used, chain).1[k],
        grow(open, used, chain).0.len() == chain.len() + spare_points(open, used, open.len() as int)
            - spare_points(open, grow(open, used, chain).1, open.len() as int),
    decreases unused_count(used),
{
    if chain.len() > 2 && close_spec(chain[0], chain.last()) {
    } else {
        lemma_next_link(open, used, chain.last(), 0);
        match next_link(open, used, chain.last(), 0) {
            Some(j) => {
                let u = used.update(j, true);
                lemma_unused_count_update(used, j);
                lemma_grow_counts(open, u, joined(chain, open[j]));
                lemma_spare_points_update(open, used, j, open.len() as int);
                assert(joined(chain, open[j]).len() == chain.len() + open[j].len() - 1);
            },
            None => {},
        }
    }
}

proof fn lemma_chains_from_counts(open: Seq<Seq<(i64, i64)>>, used: Seq<bool>, i: int)
    requires
        forall|k: int| 0 <= k < open.len() ==> #[trigger] open[k].len() >= 1,
        used.len() == open.len(),
        0 <= i <= open.len(),
        forall|k: int| 0 <= k < i ==> used[k],
    ensures
        points_in(chains_from(open, used, i)) == spare_points(open, used, open.len() as int) + chains_from(
            open,
            used,
            i,
        ).len(),
    decreases open.len() - i,
{
    if i == open.len() {
        lemma_spare_points_all_used(open, used, open.len() as int);
    } else if used[i] {
        lemma_chains_from_counts(open, used, i + 1);
    } else {
        let u = used.update(i, true);
        let g = grow(open, u, open[i]);
        lemma_grow_counts(open, u, open[i]);
        lemma_spare_points_update(open, used, i, open.len() as int);
        assert forall|k: int| 0 <= k < i + 1 implies g.1[k] by {
            assert(u[k]);
        }
        lemma_chains_from_counts(open, g.1, i + 1);
        let rest = chains_from(open, g.1, i + 1);
        assert((seq![g.0] + rest).drop_first() =~= rest);
    }
}

/// Stitching neither loses nor repeats an open fragment: the chains hold every open
/// fragment's points once, except that each join shares one point between the two
/// pieces it connects — so the chains' points number the fragments' points, less one
/// per fragment, plus one per chain.
pub proof fn lemma_every_open_fragment_is_chained_once(frags: Seq<Fragment>)
    requires
        stitchable(frags),
    ensures
        points_in(stitched_chains(frags)) == joinable_points(
            open_polylines(frags),
            open_polylines(frags).len() as int,
        ) + stitched_chains(frags).len(),
{
    let open = open_polylines(frags);
    lemma_stitchable_open(frags);
    let none = Seq::new(open.len(), |k: int| false);
    lemma_chains_from_counts(open, none, 0);
    lemma_spare_points_none_used(open, none, open.len() as int);
}

/// The offset a contour is routed at, in nanometres: outward by the tool radius for a
/// hole (the tool runs on its outside), inward for an outer boundary.
pub fn offset_delta_nm(contour: &Contour, tool_radius_nm: i64) -> (d: i64)
    requires
        tool_radius_nm != i64::MIN,
    ensures
        d == (if contour.is_hole {
            tool_radius_nm as int
        } else {
            -tool_radius_nm
        }),
{
    if contour.is_hole {
        tool_radius_nm
    } else {
        -tool_radius_nm
    }
}

} // verus!
