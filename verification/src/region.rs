use crate::image::{lemma_place, Image, MAX_DIMENSION};
use crate::quirc::{Pixel, Point, Region};
use vstd::prelude::*;

verus! {

/// The depth of recursion at which the flood fill gives up: a region that
/// needs more is left partly unpainted.
pub const FLOOD_FILL_MAX_DEPTH: usize = 4096;

/// The most regions of a frame: a region's index is the colour of its
/// pixels, and the colours are of 16 bits.
pub const MAX_REGIONS: usize = 65534;

/// What the corner searches gather while a region is filled: a reference
/// point or direction, four scores, and the pixel that reached each.
#[derive(Debug, Copy, Clone)]
pub struct PolygonScoreData {
    pub ref_0: Point,
    pub scores: [i32; 4],
    pub corners: [Point; 4],
}

/// The mathematical content of a [`PolygonScoreData`].
pub struct PolygonView {
    pub ref_0: Point,
    pub scores: Seq<i32>,
    pub corners: Seq<Point>,
}

impl View for PolygonScoreData {
    type V = PolygonView;

    open spec fn view(&self) -> PolygonView {
        PolygonView { ref_0: self.ref_0, scores: self.scores@, corners: self.corners@ }
    }
}

/// What a flood fill hands to the function that it calls for each span.
#[derive(Debug, Copy, Clone)]
pub enum UserData {
    Region(Region),
    Polygon(PolygonScoreData),
    /// Nothing: the fill calls no function, or one that keeps nothing.
    Empty,
}

/// The mathematical content of a [`UserData`].
pub enum UserView {
    Region(Region),
    Polygon(PolygonView),
    Empty,
}

impl View for UserData {
    type V = UserView;

    open spec fn view(&self) -> UserView {
        match self {
            UserData::Region(r) => UserView::Region(*r),
            UserData::Polygon(p) => UserView::Polygon(p@),
            UserData::Empty => UserView::Empty,
        }
    }
}

impl UserData {
    /// The polygon data that `self` holds.
    pub fn into_polygon(self) -> (p: PolygonScoreData)
        requires
            self is Polygon,
        ensures
            self == UserData::Polygon(p),
    {
        match self {
            UserData::Polygon(poly) => poly,
            _ => PolygonScoreData {
                ref_0: Point { x: 0, y: 0 },
                scores: [0i32; 4],
                corners: [Point { x: 0, y: 0 }; 4],
            },
        }
    }
}

/// The function that a flood fill calls for each span that it paints.
#[derive(Debug, Copy, Clone, PartialEq, Eq, Structural)]
pub enum SpanFn {
    /// No function.
    Nothing,
    /// [`area_count`].
    AreaCount,
    /// [`find_one_corner`].
    FindOneCorner,
    /// [`find_other_corners`].
    FindOtherCorners,
    /// [`find_leftmost_to_line`].
    FindLeftmostToLine,
}

/// Is `(x, y)` a pixel of some frame within the limits?
pub open spec fn is_pixel(x: int, y: int) -> bool {
    0 <= x < MAX_DIMENSION && 0 <= y < MAX_DIMENSION
}

/// The region with the pixels of the span from `left` to `right` counted.
pub open spec fn spec_area_count(r: Region, left: int, right: int) -> Region {
    Region { count: (r.count + right - left + 1) as i32, ..r }
}

/// Adds the length of the span from `left` to `right` to the pixel count
/// of the region.
pub fn area_count(user_data: &mut UserData, y: usize, left: i32, right: i32)
    requires
        *old(user_data) is Region,
        0 <= left <= right,
        right - left < i32::MAX,
        old(user_data)->Region_0.count + right - left + 1 <= i32::MAX,
    ensures
        *final(user_data) == UserData::Region(
            spec_area_count(old(user_data)->Region_0, left as int, right as int),
        ),
{
    match user_data {
        UserData::Region(region) => {
            region.count += right - left + 1;
        },
        _ => {},
    }
}

/// The polygon data with the pixel `(x, y)` taken as the corner `j` where
/// it scores `score` and that is more than the corner has.
pub open spec fn raise(p: PolygonView, j: int, score: int, x: int, y: int) -> PolygonView {
    if score > p.scores[j] {
        PolygonView {
            scores: p.scores.update(j, score as i32),
            corners: p.corners.update(j, Point { x: x as i32, y: y as i32 }),
            ..p
        }
    } else {
        p
    }
}

/// The square of the distance of `(x, y)` from the reference point.
pub open spec fn distance_score(p: PolygonView, x: int, y: int) -> int {
    (x - p.ref_0.x) * (x - p.ref_0.x) + (y - p.ref_0.y) * (y - p.ref_0.y)
}

/// The polygon data once both ends of the span are held against corner
/// 0: the pixel that is farthest from the reference point is kept.
pub open spec fn spec_one_corner(p: PolygonView, y: int, left: int, right: int) -> PolygonView {
    let q = raise(p, 0, distance_score(p, left, y), left, y);
    raise(q, 0, distance_score(q, right, y), right, y)
}

/// How far `(x, y)` lies along the reference direction.
pub open spec fn along(p: PolygonView, x: int, y: int) -> int {
    x * p.ref_0.x + y * p.ref_0.y
}

/// How far `(x, y)` lies across the reference direction.
pub open spec fn across(p: PolygonView, x: int, y: int) -> int {
    x * -p.ref_0.y + y * p.ref_0.x
}

/// The score of the pixel `(x, y)` for the corner `j`: how far it lies
/// along the reference direction, across it, against it, or across it the
/// other way.
pub open spec fn corner_score(p: PolygonView, j: int, x: int, y: int) -> int {
    if j == 0 {
        along(p, x, y)
    } else if j == 1 {
        across(p, x, y)
    } else if j == 2 {
        -along(p, x, y)
    } else {
        -across(p, x, y)
    }
}

/// The polygon data once the pixel `(x, y)` is held against the first `j`
/// corners.
pub open spec fn raised(p: PolygonView, j: int, x: int, y: int) -> PolygonView
    decreases j,
{
    if j <= 0 {
        p
    } else {
        raise(raised(p, j - 1, x, y), j - 1, corner_score(p, j - 1, x, y), x, y)
    }
}

/// The polygon data once the pixel `(x, y)` is held against all four
/// corners.
pub open spec fn raise_four(p: PolygonView, x: int, y: int) -> PolygonView {
    raised(p, 4, x, y)
}

/// The polygon data once both ends of the span are held against all four
/// corners.
pub open spec fn spec_other_corners(p: PolygonView, y: int, left: int, right: int) -> PolygonView {
    raise_four(raise_four(p, left, y), right, y)
}

/// The polygon data with the pixel `(x, y)` taken as corner 0 where it
/// lies farther to the left of the reference direction than the corner.
pub open spec fn lower(p: PolygonView, x: int, y: int) -> PolygonView {
    let d = -p.ref_0.y * x + p.ref_0.x * y;
    if d < p.scores[0] {
        PolygonView {
            scores: p.scores.update(0, d as i32),
            corners: p.corners.update(0, Point { x: x as i32, y: y as i32 }),
            ..p
        }
    } else {
        p
    }
}

/// The polygon data once both ends of the span are held against corner
/// 0: the pixel that lies farthest to the left of the reference direction
/// is kept.
pub open spec fn spec_leftmost_to_line(p: PolygonView, y: int, left: int, right: int) -> PolygonView {
    lower(lower(p, left, y), right, y)
}

/// Is the reference of the polygon data a pixel?
pub open spec fn ref_is_pixel(p: PolygonView) -> bool {
    is_pixel(p.ref_0.x as int, p.ref_0.y as int)
}

/// Is the reference of the polygon data the difference of two pixels?
pub open spec fn ref_is_direction(p: PolygonView) -> bool {
    &&& -MAX_DIMENSION < p.ref_0.x < MAX_DIMENSION
    &&& -MAX_DIMENSION < p.ref_0.y < MAX_DIMENSION
}

/// Products of coordinates and of differences of coordinates fit.
proof fn lemma_coordinate_product(a: int, b: int)
    requires
        -MAX_DIMENSION < a < MAX_DIMENSION,
        -MAX_DIMENSION < b < MAX_DIMENSION,
    ensures
        -0x3fff_0001 <= a * b <= 0x3fff_0001,
{
    assert(-0x3fff_0001 <= a * b <= 0x3fff_0001) by (nonlinear_arith)
        requires
            -32767 < a < 32767,
            -32767 < b < 32767,
    ;
}

/// Holds the two ends of the span against corner 0 and keeps the pixel
/// that is farthest from the reference point.
pub fn find_one_corner(user_data: &mut UserData, y: usize, left: i32, right: i32)
    requires
        *old(user_data) is Polygon,
        ref_is_pixel(old(user_data)->Polygon_0@),
        is_pixel(left as int, y as int),
        is_pixel(right as int, y as int),
    ensures
        final(user_data)@ == UserView::Polygon(
            spec_one_corner(old(user_data)->Polygon_0@, y as int, left as int, right as int),
        ),
{
    match user_data {
        UserData::Polygon(psd) => {
            let dy: i32 = y as i32 - psd.ref_0.y;
            let xs: [i32; 2] = [left, right];
            let ghost start = psd@;
            let mut k: usize = 0;
            while k < 2
                invariant
                    k <= 2,
                    xs@[0] == left,
                    xs@[1] == right,
                    ref_is_pixel(psd@),
                    is_pixel(left as int, y as int),
                    is_pixel(right as int, y as int),
                    dy == y - psd.ref_0.y,
                    psd@ == if k == 0 {
                        start
                    } else if k == 1 {
                        raise(start, 0, distance_score(start, left as int, y as int), left as int, y as int)
                    } else {
                        spec_one_corner(start, y as int, left as int, right as int)
                    },
                decreases 2 - k,
            {
                let x: i32 = xs[k];
                let dx: i32 = x - psd.ref_0.x;
                proof {
                    lemma_coordinate_product(dx as int, dx as int);
                    lemma_coordinate_product(dy as int, dy as int);
                }
                let d: i32 = dx * dx + dy * dy;
                if d > psd.scores[0] {
                    psd.scores[0] = d;
                    psd.corners[0] = Point { x, y: y as i32 };
                }
                k += 1;
            }
        },
        _ => {},
    }
}

/// Holds the two ends of the span against all four corners and keeps for
/// each the pixel that lies farthest in its direction.
pub fn find_other_corners(user_data: &mut UserData, y: usize, left: i32, right: i32)
    requires
        *old(user_data) is Polygon,
        ref_is_direction(old(user_data)->Polygon_0@),
        is_pixel(left as int, y as int),
        is_pixel(right as int, y as int),
    ensures
        final(user_data)@ == UserView::Polygon(
            spec_other_corners(old(user_data)->Polygon_0@, y as int, left as int, right as int),
        ),
{
    match user_data {
        UserData::Polygon(psd) => {
            let xs: [i32; 2] = [left, right];
            let ghost start = psd@;
            let mut k: usize = 0;
            while k < 2
                invariant
                    k <= 2,
                    xs@[0] == left,
                    xs@[1] == right,
                    ref_is_direction(psd@),
                    is_pixel(left as int, y as int),
                    is_pixel(right as int, y as int),
                    psd@ == if k == 0 {
                        start
                    } else if k == 1 {
                        raise_four(start, left as int, y as int)
                    } else {
                        spec_other_corners(start, y as int, left as int, right as int)
                    },
                decreases 2 - k,
            {
                let x: i32 = xs[k];
                proof {
                    lemma_coordinate_product(x as int, psd.ref_0.x as int);
                    lemma_coordinate_product(y as int, psd.ref_0.y as int);
                    lemma_coordinate_product(x as int, -psd.ref_0.y as int);
                    lemma_coordinate_product(y as int, psd.ref_0.x as int);
                }
                let up: i32 = x * psd.ref_0.x + y as i32 * psd.ref_0.y;
                let right_0: i32 = x * -psd.ref_0.y + y as i32 * psd.ref_0.x;
                let scores: [i32; 4] = [up, right_0, -up, -right_0];
                let ghost before = psd@;
                let mut j: usize = 0;
                while j < 4
                    invariant
                        j <= 4,
                        scores@[0] == up,
                        scores@[1] == right_0,
                        scores@[2] == -up,
                        scores@[3] == -right_0,
                        y < MAX_DIMENSION,
                        up == along(before, x as int, y as int),
                        right_0 == across(before, x as int, y as int),
                        psd@ == raised(before, j as int, x as int, y as int),
                        psd@.ref_0 == before.ref_0,
                    decreases 4 - j,
                {
                    if scores[j] > psd.scores[j] {
                        psd.scores[j] = scores[j];
                        psd.corners[j] = Point { x, y: y as i32 };
                    }
                    j += 1;
                }
                k += 1;
            }
        },
        _ => {},
    }
}

/// Holds the two ends of the span against corner 0 and keeps the pixel
/// that lies farthest to the left of the reference direction.
pub fn find_leftmost_to_line(user_data: &mut UserData, y: usize, left: i32, right: i32)
    requires
        *old(user_data) is Polygon,
        ref_is_direction(old(user_data)->Polygon_0@),
        is_pixel(left as int, y as int),
        is_pixel(right as int, y as int),
    ensures
        final(user_data)@ == UserView::Polygon(
            spec_leftmost_to_line(old(user_data)->Polygon_0@, y as int, left as int, right as int),
        ),
{
    match user_data {
        UserData::Polygon(psd) => {
            let xs: [i32; 2] = [left, right];
            let ghost start = psd@;
            let mut k: usize = 0;
            while k < 2
                invariant
                    k <= 2,
                    xs@[0] == left,
                    xs@[1] == right,
                    ref_is_direction(psd@),
                    is_pixel(left as int, y as int),
                    is_pixel(right as int, y as int),
                    psd@ == if k == 0 {
                        start
                    } else if k == 1 {
                        lower(start, left as int, y as int)
                    } else {
                        spec_leftmost_to_line(start, y as int, left as int, right as int)
                    },
                decreases 2 - k,
            {
                let x: i32 = xs[k];
                proof {
                    lemma_coordinate_product(-psd.ref_0.y as int, x as int);
                    lemma_coordinate_product(psd.ref_0.x as int, y as int);
                }
                let d: i32 = -psd.ref_0.y * x + psd.ref_0.x * y as i32;
                if d < psd.scores[0] {
                    psd.scores[0] = d;
                    psd.corners[0] = Point { x, y: y as i32 };
                }
                k += 1;
            }
        },
        _ => {},
    }
}


/// What a flood fill works on: the pixels of the frame and the data of
/// the function that it calls.
pub struct Fill {
    pub pixels: Seq<Pixel>,
    pub user: UserView,
}

/// The leftmost pixel of the run of pixels of the colour `from` that ends
/// just left of `(x, y)`, or `x` where there is no such run.
pub open spec fn left_end(pixels: Seq<Pixel>, w: int, y: int, x: int, from: Pixel) -> int
    decreases x,
{
    if x > 0 && pixels[y * w + x - 1] == from {
        left_end(pixels, w, y, x - 1, from)
    } else {
        x
    }
}

/// The rightmost pixel of the run of pixels of the colour `from` that
/// starts just right of `(x, y)`, or `x` where there is no such run.
pub open spec fn right_end(pixels: Seq<Pixel>, w: int, y: int, x: int, from: Pixel) -> int
    decreases w - x,
{
    if x < w - 1 && pixels[y * w + x + 1] == from {
        right_end(pixels, w, y, x + 1, from)
    } else {
        x
    }
}

/// The pixels with those from the place `lo` to the place `hi` painted in
/// the colour `to`.
pub open spec fn paint(pixels: Seq<Pixel>, lo: int, hi: int, to: Pixel) -> Seq<Pixel> {
    Seq::new(
        pixels.len(),
        |k: int|
            if lo <= k <= hi {
                to
            } else {
                pixels[k]
            },
    )
}

/// The data after the function `f` is called for the span from `left` to
/// `right` in row `y`.
pub open spec fn visit(f: SpanFn, user: UserView, y: int, left: int, right: int) -> UserView {
    match user {
        UserView::Region(r) => if f == SpanFn::AreaCount {
            UserView::Region(spec_area_count(r, left, right))
        } else {
            user
        },
        UserView::Polygon(p) => if f == SpanFn::FindOneCorner {
            UserView::Polygon(spec_one_corner(p, y, left, right))
        } else if f == SpanFn::FindOtherCorners {
            UserView::Polygon(spec_other_corners(p, y, left, right))
        } else if f == SpanFn::FindLeftmostToLine {
            UserView::Polygon(spec_leftmost_to_line(p, y, left, right))
        } else {
            user
        },
        UserView::Empty => user,
    }
}

/// What a flood fill from the seed `(x, y)` leaves, at the given depth of
/// recursion: the run of pixels of the colour `from` around the seed is
/// painted in the colour `to` and handed to the function `f`; then, for
/// each pixel of the colour `from` just above the span, from left to
/// right, the fill goes on from that pixel, and after that the same for
/// the pixels just below. At the depth 4096 nothing is done.
pub open spec fn spec_flood_fill(
    st: Fill,
    w: int,
    h: int,
    x: int,
    y: int,
    from: Pixel,
    to: Pixel,
    f: SpanFn,
    depth: int,
) -> Fill
    decreases 4096 - depth, 1int, 0int,
{
    if depth >= 4096 {
        st
    } else {
        let left = left_end(st.pixels, w, y, x, from);
        let right = right_end(st.pixels, w, y, x, from);
        let painted = Fill {
            pixels: paint(st.pixels, y * w + left, y * w + right, to),
            user: visit(f, st.user, y, left, right),
        };
        let above = if y > 0 {
            spec_seed_row(painted, w, h, y - 1, left, right, from, to, f, depth)
        } else {
            painted
        };
        if y < h - 1 {
            spec_seed_row(above, w, h, y + 1, left, right, from, to, f, depth)
        } else {
            above
        }
    }
}

/// What the fills leave that start from the pixels of the colour `from`
/// among those from `i` to `right` in the row `row`, one after another.
pub open spec fn spec_seed_row(
    st: Fill,
    w: int,
    h: int,
    row: int,
    i: int,
    right: int,
    from: Pixel,
    to: Pixel,
    f: SpanFn,
    depth: int,
) -> Fill
    decreases 4096 - depth, 0int, right + 1 - i,
{
    if i > right || depth >= 4096 {
        st
    } else {
        let next = if st.pixels[row * w + i] == from {
            spec_flood_fill(st, w, h, i, row, from, to, f, depth + 1)
        } else {
            st
        };
        spec_seed_row(next, w, h, row, i + 1, right, from, to, f, depth)
    }
}

/// The number of pixels of the colour `v` among the first `n`.
pub open spec fn count_of(pixels: Seq<Pixel>, v: Pixel, n: int) -> int
    decreases n,
{
    if n <= 0 {
        0
    } else {
        count_of(pixels, v, n - 1) + if pixels[n - 1] == v {
            1int
        } else {
            0int
        }
    }
}

/// The number of pixels of the colour `v`.
pub open spec fn total_of(pixels: Seq<Pixel>, v: Pixel) -> int {
    count_of(pixels, v, pixels.len() as int)
}

/// The pixel count that the data holds, or 0 where it holds none.
pub open spec fn tally(user: UserView) -> int {
    match user {
        UserView::Region(r) => r.count as int,
        _ => 0,
    }
}

/// Are the corners that the data holds pixels of a frame of `w` by `h`?
pub open spec fn corners_in(user: UserView, w: int, h: int) -> bool {
    match user {
        UserView::Polygon(p) => p.corners.len() == 4 && p.scores.len() == 4 && forall|j: int|
            0 <= j < 4 ==> 0 <= (#[trigger] p.corners[j]).x < w && 0 <= p.corners[j].y < h,
        _ => true,
    }
}

/// Can the function `f` be called on the data, for a fill from a seed of
/// the colour `seed`? The data has to be of the function's kind. A count
/// of pixels must have room for all pixels of the colour `from`, and the
/// seed has to be one of them; a corner search needs a reference within
/// limits and corners in the frame.
pub open spec fn fill_ready(
    f: SpanFn,
    user: UserView,
    pixels: Seq<Pixel>,
    w: int,
    h: int,
    seed: Pixel,
    from: Pixel,
) -> bool {
    match f {
        SpanFn::Nothing => true,
        SpanFn::AreaCount => {
            &&& user is Region
            &&& seed == from
            &&& tally(user) + total_of(pixels, from) <= i32::MAX
        },
        SpanFn::FindOneCorner => {
            &&& user is Polygon
            &&& ref_is_pixel(user->Polygon_0)
            &&& corners_in(user, w, h)
        },
        _ => {
            &&& user is Polygon
            &&& ref_is_direction(user->Polygon_0)
            &&& corners_in(user, w, h)
        },
    }
}

/// What every flood fill keeps: each pixel, or else the pixel was of the
/// colour `from`, or the seed at the place `root`, and is painted in the
/// colour `to`; the kind of the data and its reference; that the corners
/// are pixels of the frame; and, while it counts, the sum of the count
/// and of the number of pixels of the colour `from`.
pub open spec fn fill_keeps(
    before: Fill,
    after: Fill,
    w: int,
    h: int,
    from: Pixel,
    to: Pixel,
    f: SpanFn,
    root: int,
) -> bool {
    &&& after.pixels.len() == before.pixels.len()
    &&& forall|k: int|
        0 <= k < before.pixels.len() ==> #[trigger] after.pixels[k] == before.pixels[k] || (
        after.pixels[k] == to && (before.pixels[k] == from || k == root))
    &&& user_kept(before.user, after.user)
    &&& corners_in(before.user, w, h) ==> corners_in(after.user, w, h)
    &&& f == SpanFn::AreaCount ==> tally(after.user) + total_of(after.pixels, from) == tally(
        before.user,
    ) + total_of(before.pixels, from)
    &&& f == SpanFn::AreaCount ==> tally(after.user) >= tally(before.user)
}

/// Is the data of the same kind as before, and has it kept what no span
/// function changes: the seed and the capstone of a region, the reference
/// of a corner search?
pub open spec fn user_kept(before: UserView, after: UserView) -> bool {
    match before {
        UserView::Region(r) => after is Region && after->Region_0.seed == r.seed
            && after->Region_0.capstone == r.capstone,
        UserView::Polygon(p) => after is Polygon && after->Polygon_0.ref_0 == p.ref_0,
        UserView::Empty => after is Empty,
    }
}

/// A count is not negative.
proof fn lemma_count_nonnegative(pixels: Seq<Pixel>, v: Pixel, n: int)
    ensures
        0 <= count_of(pixels, v, n),
    decreases n,
{
    if n > 0 {
        lemma_count_nonnegative(pixels, v, n - 1);
    }
}

/// Painting a span of pixels of the colour `from` in another colour takes
/// as many pixels off the number of pixels of the colour `from`.
proof fn lemma_paint_count(pixels: Seq<Pixel>, lo: int, hi: int, from: Pixel, to: Pixel, n: int)
    requires
        0 <= lo <= hi < pixels.len(),
        0 <= n <= pixels.len(),
        from != to,
        forall|k: int| lo <= k <= hi ==> pixels[k] == from,
    ensures
        count_of(paint(pixels, lo, hi, to), from, n) == count_of(pixels, from, n) - if n <= lo {
            0
        } else if n <= hi + 1 {
            n - lo
        } else {
            hi - lo + 1
        },
    decreases n,
{
    if n > 0 {
        lemma_paint_count(pixels, lo, hi, from, to, n - 1);
    }
}

/// The run that `left_end` finds consists of pixels of the colour `from`.
proof fn lemma_left_run(pixels: Seq<Pixel>, w: int, y: int, x: int, from: Pixel, k: int)
    requires
        left_end(pixels, w, y, x, from) <= k < x,
    ensures
        pixels[y * w + k] == from,
    decreases x,
{
    if x > 0 && pixels[y * w + x - 1] == from {
        if k < x - 1 {
            lemma_left_run(pixels, w, y, x - 1, from, k);
        }
    }
}

/// The run around a pixel of a row lies within the row.
proof fn lemma_run_bounds(pixels: Seq<Pixel>, w: int, y: int, x: int, from: Pixel)
    requires
        0 <= x < w,
    ensures
        0 <= left_end(pixels, w, y, x, from) <= x,
        x <= right_end(pixels, w, y, x, from) < w,
{
    lemma_left_bound(pixels, w, y, x, from);
    lemma_right_bound(pixels, w, y, x, from);
}

/// The run to the left of a pixel ends within the row.
proof fn lemma_left_bound(pixels: Seq<Pixel>, w: int, y: int, x: int, from: Pixel)
    requires
        0 <= x,
    ensures
        0 <= left_end(pixels, w, y, x, from) <= x,
    decreases x,
{
    if x > 0 && pixels[y * w + x - 1] == from {
        lemma_left_bound(pixels, w, y, x - 1, from);
    }
}

/// The run to the right of a pixel ends within the row.
proof fn lemma_right_bound(pixels: Seq<Pixel>, w: int, y: int, x: int, from: Pixel)
    requires
        x < w,
    ensures
        x <= right_end(pixels, w, y, x, from) < w,
    decreases w - x,
{
    if x < w - 1 && pixels[y * w + x + 1] == from {
        lemma_right_bound(pixels, w, y, x + 1, from);
    }
}

/// The run that `right_end` finds consists of pixels of the colour `from`.
proof fn lemma_right_run(pixels: Seq<Pixel>, w: int, y: int, x: int, from: Pixel, k: int)
    requires
        x < k <= right_end(pixels, w, y, x, from),
    ensures
        pixels[y * w + k] == from,
    decreases w - x,
{
    if x < w - 1 && pixels[y * w + x + 1] == from {
        if k > x + 1 {
            lemma_right_run(pixels, w, y, x + 1, from, k);
        }
    }
}

/// What is kept by one fill and then by another, whose seed was of the
/// colour `from`, is kept by both.
proof fn lemma_keeps_both(
    a: Fill,
    b: Fill,
    c: Fill,
    w: int,
    h: int,
    from: Pixel,
    to: Pixel,
    f: SpanFn,
    root: int,
)
    requires
        fill_keeps(a, b, w, h, from, to, f, root),
        fill_keeps(b, c, w, h, from, to, f, -1),
    ensures
        fill_keeps(a, c, w, h, from, to, f, root),
{
    assert forall|k: int| 0 <= k < a.pixels.len() implies #[trigger] c.pixels[k] == a.pixels[k]
        || (c.pixels[k] == to && (a.pixels[k] == from || k == root)) by {
        assert(b.pixels[k] == a.pixels[k] || (b.pixels[k] == to && (a.pixels[k] == from || k
            == root)));
        assert(c.pixels[k] == b.pixels[k] || (c.pixels[k] == to && b.pixels[k] == from));
    }
}

/// A fill whose seed is of the colour `from` changes no other pixels.
proof fn lemma_keeps_strictly(a: Fill, b: Fill, w: int, h: int, from: Pixel, to: Pixel, f: SpanFn, root: int)
    requires
        fill_keeps(a, b, w, h, from, to, f, root),
        0 <= root < a.pixels.len(),
        a.pixels[root] == from,
    ensures
        fill_keeps(a, b, w, h, from, to, f, -1),
{
    assert forall|k: int| 0 <= k < a.pixels.len() implies #[trigger] b.pixels[k] == a.pixels[k]
        || (b.pixels[k] == to && (a.pixels[k] == from || k == -1)) by {
        assert(b.pixels[k] == a.pixels[k] || (b.pixels[k] == to && (a.pixels[k] == from || k
            == root)));
    }
}

/// Do the pixels `(x1, y1)` and `(x2, y2)` lie side by side, in a row or
/// in a column?
pub open spec fn neighbours(x1: int, y1: int, x2: int, y2: int) -> bool {
    ||| y1 == y2 && (x1 - x2 == 1 || x2 - x1 == 1)
    ||| x1 == x2 && (y1 - y2 == 1 || y2 - y1 == 1)
}

/// Is the pixel `b` a pixel of the frame of the colour `from`, and a
/// neighbour of the pixel `a`?
pub open spec fn good_step(pixels: Seq<Pixel>, w: int, h: int, from: Pixel, a: (int, int), b: (int, int)) -> bool {
    &&& 0 <= b.0 < w
    &&& 0 <= b.1 < h
    &&& pixels[b.1 * w + b.0] == from
    &&& neighbours(a.0, a.1, b.0, b.1)
}

/// Is `path` a way from the pixel `(sx, sy)` to the pixel `(x, y)`, each
/// step of it to a neighbour of the colour `from`?
pub open spec fn way_between(
    pixels: Seq<Pixel>,
    w: int,
    h: int,
    from: Pixel,
    path: Seq<(int, int)>,
    sx: int,
    sy: int,
    x: int,
    y: int,
) -> bool {
    &&& path.len() >= 1
    &&& path[0] == (sx, sy)
    &&& path[path.len() - 1] == (x, y)
    &&& forall|k: int|
        1 <= k < path.len() ==> good_step(pixels, w, h, from, path[k - 1], #[trigger] path[k])
}

/// Does the pixel `(x, y)` belong to the connected region of the colour
/// `from` about the pixel `(sx, sy)`: is there a way from the one to the
/// other?
pub open spec fn connected(
    pixels: Seq<Pixel>,
    w: int,
    h: int,
    from: Pixel,
    sx: int,
    sy: int,
    x: int,
    y: int,
) -> bool {
    exists|path: Seq<(int, int)>| way_between(pixels, w, h, from, path, sx, sy, x, y)
}

/// Does every pixel that differs between `before` and `after` belong to
/// the connected region about the seed `(sx, sy)`, as it was before?
pub open spec fn fill_within(
    before: Seq<Pixel>,
    after: Seq<Pixel>,
    w: int,
    h: int,
    from: Pixel,
    sx: int,
    sy: int,
) -> bool {
    forall|x: int, y: int|
        0 <= x < w && 0 <= y < h && after[y * w + x] != before[y * w + x] ==> #[trigger] connected(
            before,
            w,
            h,
            from,
            sx,
            sy,
            x,
            y,
        )
}

/// Does the pixel `(x, y)` belong to the connected region about one of the
/// pixels of the colour `from` among those from `left` to `right` in the
/// row `row`?
pub open spec fn connected_to_row(
    pixels: Seq<Pixel>,
    w: int,
    h: int,
    from: Pixel,
    row: int,
    left: int,
    right: int,
    x: int,
    y: int,
) -> bool {
    exists|i: int|
        left <= i <= right && pixels[row * w + i] == from && #[trigger] connected(
            pixels,
            w,
            h,
            from,
            i,
            row,
            x,
            y,
        )
}

/// Does every pixel that differs between `before` and `after` belong to
/// the connected region about a seed in the row?
pub open spec fn fill_within_row(
    before: Seq<Pixel>,
    after: Seq<Pixel>,
    w: int,
    h: int,
    from: Pixel,
    row: int,
    left: int,
    right: int,
) -> bool {
    forall|x: int, y: int|
        0 <= x < w && 0 <= y < h && after[y * w + x] != before[y * w + x]
            ==> #[trigger] connected_to_row(before, w, h, from, row, left, right, x, y)
}

/// A way to a pixel goes on to its neighbour of the colour `from`.
proof fn lemma_connected_step(
    pixels: Seq<Pixel>,
    w: int,
    h: int,
    from: Pixel,
    sx: int,
    sy: int,
    px: int,
    py: int,
    x: int,
    y: int,
)
    requires
        connected(pixels, w, h, from, sx, sy, px, py),
        0 <= x < w,
        0 <= y < h,
        neighbours(px, py, x, y),
        pixels[y * w + x] == from,
    ensures
        connected(pixels, w, h, from, sx, sy, x, y),
{
    let path = choose|path: Seq<(int, int)>| way_between(pixels, w, h, from, path, sx, sy, px, py);
    let longer = path.push((x, y));
    assert forall|k: int| 1 <= k < longer.len() implies good_step(
        pixels,
        w,
        h,
        from,
        longer[k - 1],
        #[trigger] longer[k],
    ) by {
        if k < path.len() {
            assert(good_step(pixels, w, h, from, path[k - 1], path[k]));
        }
    }
    assert(way_between(pixels, w, h, from, longer, sx, sy, x, y));
}

/// What is connected to a pixel that is connected to the seed is connected
/// to the seed.
proof fn lemma_connected_on(
    pixels: Seq<Pixel>,
    w: int,
    h: int,
    from: Pixel,
    sx: int,
    sy: int,
    mx: int,
    my: int,
    x: int,
    y: int,
)
    requires
        connected(pixels, w, h, from, sx, sy, mx, my),
        connected(pixels, w, h, from, mx, my, x, y),
    ensures
        connected(pixels, w, h, from, sx, sy, x, y),
{
    let first = choose|path: Seq<(int, int)>| way_between(pixels, w, h, from, path, sx, sy, mx, my);
    let second = choose|path: Seq<(int, int)>| way_between(pixels, w, h, from, path, mx, my, x, y);
    let whole = first + second.subrange(1, second.len() as int);
    assert forall|k: int| 1 <= k < whole.len() implies good_step(
        pixels,
        w,
        h,
        from,
        whole[k - 1],
        #[trigger] whole[k],
    ) by {
        if k < first.len() {
            assert(good_step(pixels, w, h, from, first[k - 1], first[k]));
        } else {
            let q = k - first.len() + 1;
            assert(whole[k] == second[q]);
            assert(good_step(pixels, w, h, from, second[q - 1], second[q]));
        }
    }
    assert(way_between(pixels, w, h, from, whole, sx, sy, x, y));
}

/// A way through the pixels of the colour `from` of a frame is a way in
/// every frame that has these pixels in that colour.
proof fn lemma_connected_before(
    before: Seq<Pixel>,
    now: Seq<Pixel>,
    w: int,
    h: int,
    from: Pixel,
    sx: int,
    sy: int,
    x: int,
    y: int,
)
    requires
        0 <= w <= MAX_DIMENSION,
        0 <= h <= MAX_DIMENSION,
        before.len() == w * h,
        now.len() == w * h,
        forall|k: int| 0 <= k < now.len() && now[k] == from ==> before[k] == from,
        connected(now, w, h, from, sx, sy, x, y),
    ensures
        connected(before, w, h, from, sx, sy, x, y),
{
    let path = choose|path: Seq<(int, int)>| way_between(now, w, h, from, path, sx, sy, x, y);
    assert forall|k: int| 1 <= k < path.len() implies good_step(
        before,
        w,
        h,
        from,
        path[k - 1],
        #[trigger] path[k],
    ) by {
        assert(good_step(now, w, h, from, path[k - 1], path[k]));
        lemma_place(w, h, path[k].0, path[k].1);
    }
    assert(way_between(before, w, h, from, path, sx, sy, x, y));
}

/// The pixels of the span about a seed are connected to the seed.
proof fn lemma_span_connected(
    pixels: Seq<Pixel>,
    w: int,
    h: int,
    x: int,
    y: int,
    from: Pixel,
    c: int,
)
    requires
        0 <= x < w,
        0 <= y < h,
        left_end(pixels, w, y, x, from) <= c <= right_end(pixels, w, y, x, from),
    ensures
        connected(pixels, w, h, from, x, y, c, y),
    decreases
            if c >= x {
                c - x
            } else {
                x - c
            },
{
    lemma_run_bounds(pixels, w, y, x, from);
    if c == x {
        assert(way_between(pixels, w, h, from, seq![(x, y)], x, y, c, y));
    } else if c > x {
        lemma_span_connected(pixels, w, h, x, y, from, c - 1);
        lemma_right_run(pixels, w, y, x, from, c);
        lemma_connected_step(pixels, w, h, from, x, y, c - 1, y, c, y);
    } else {
        lemma_span_connected(pixels, w, h, x, y, from, c + 1);
        lemma_left_run(pixels, w, y, x, from, c);
        lemma_connected_step(pixels, w, h, from, x, y, c + 1, y, c, y);
    }
}

/// A place of the span of a row lies in that row.
proof fn lemma_place_in_row(w: int, y: int, left: int, right: int, px: int, py: int)
    requires
        0 <= left <= right < w,
        0 <= px < w,
        y * w + left <= py * w + px <= y * w + right,
    ensures
        py == y,
        left <= px <= right,
{
    assert(py == y) by (nonlinear_arith)
        requires
            0 <= left <= right < w,
            0 <= px < w,
            y * w + left <= py * w + px <= y * w + right,
    ;
}

/// What is connected to a seed in the row above or below the span of the
/// seed `(x, y)`, in a frame that has come of the frame `start` by
/// painting, is connected to the seed `(x, y)` in the frame `start`.
proof fn lemma_connected_through_row(
    start: Seq<Pixel>,
    now: Seq<Pixel>,
    w: int,
    h: int,
    from: Pixel,
    x: int,
    y: int,
    row: int,
    px: int,
    py: int,
)
    requires
        0 <= x < w <= MAX_DIMENSION,
        0 <= y < h <= MAX_DIMENSION,
        0 <= row < h,
        row == y - 1 || row == y + 1,
        start.len() == w * h,
        now.len() == w * h,
        forall|k: int| 0 <= k < now.len() && now[k] == from ==> start[k] == from,
        connected_to_row(
            now,
            w,
            h,
            from,
            row,
            left_end(start, w, y, x, from),
            right_end(start, w, y, x, from),
            px,
            py,
        ),
    ensures
        connected(start, w, h, from, x, y, px, py),
{
    let left = left_end(start, w, y, x, from);
    let right = right_end(start, w, y, x, from);
    lemma_run_bounds(start, w, y, x, from);
    let i = choose|i: int|
        left <= i <= right && now[row * w + i] == from && #[trigger] connected(
            now,
            w,
            h,
            from,
            i,
            row,
            px,
            py,
        );
    lemma_place(w, h, i, row);
    lemma_span_connected(start, w, h, x, y, from, i);
    lemma_connected_step(start, w, h, from, x, y, i, y, i, row);
    lemma_connected_before(start, now, w, h, from, i, row, px, py);
    lemma_connected_on(start, w, h, from, x, y, i, row, px, py);
}

/// Where a frame and the data stand.
pub open spec fn fill_of(image: &Image, user_data: &UserData) -> Fill {
    Fill { pixels: image.pixels@, user: user_data@ }
}

/// Calls the function `func` for the span from `left` to `right` in row
/// `y`.
fn call_span_fn(func: SpanFn, user_data: &mut UserData, y: usize, left: usize, right: usize)
    requires
        left <= right < MAX_DIMENSION,
        y < MAX_DIMENSION,
        match func {
            SpanFn::Nothing => true,
            SpanFn::AreaCount => *old(user_data) is Region && tally(old(user_data)@) + right - left
                + 1 <= i32::MAX,
            SpanFn::FindOneCorner => *old(user_data) is Polygon && ref_is_pixel(
                old(user_data)->Polygon_0@,
            ),
            _ => *old(user_data) is Polygon && ref_is_direction(old(user_data)->Polygon_0@),
        },
    ensures
        final(user_data)@ == visit(func, old(user_data)@, y as int, left as int, right as int),
{
    match func {
        SpanFn::Nothing => {},
        SpanFn::AreaCount => area_count(user_data, y, left as i32, right as i32),
        SpanFn::FindOneCorner => find_one_corner(user_data, y, left as i32, right as i32),
        SpanFn::FindOtherCorners => find_other_corners(user_data, y, left as i32, right as i32),
        SpanFn::FindLeftmostToLine => find_leftmost_to_line(
            user_data,
            y,
            left as i32,
            right as i32,
        ),
    }
}

/// Paints the span from `left` to `right` in row `y` in the colour `to`.
fn paint_span(image: &mut Image, y: usize, left: usize, right: usize, to: Pixel)
    requires
        old(image).wf(),
        left <= right < old(image).width,
        y < old(image).height,
    ensures
        final(image).wf(),
        final(image).width == old(image).width,
        final(image).height == old(image).height,
        final(image).pixels@ == paint(
            old(image).pixels@,
            y * old(image).width + left,
            y * old(image).width + right,
            to,
        ),
{
    proof {
        lemma_place(image.width as int, image.height as int, right as int, y as int);
    }
    let row: usize = y * image.width;
    let mut k: usize = left;
    while k <= right
        invariant
            left <= k <= right + 1,
            right < image.width,
            row == y * image.width,
            row + right < image.pixels@.len(),
            row + right < 0x4000_0000,
            image.width == old(image).width,
            image.height == old(image).height,
            image.pixels@.len() == old(image).pixels@.len(),
            forall|q: int|
                0 <= q < image.pixels@.len() ==> image.pixels@[q] == if row + left <= q < row + k {
                    to
                } else {
                    old(image).pixels@[q]
                },
        decreases right + 1 - k,
    {
        image.pixels[row + k] = to;
        k += 1;
    }
    assert(image.pixels@ =~= paint(old(image).pixels@, row + left, row + right, to));
}


/// Finds the two ends of the run of pixels of the colour `from` around
/// `(x, y)`.
fn span_ends(image: &Image, x: usize, y: usize, from: Pixel) -> (ends: (usize, usize))
    requires
        image.wf(),
        image.holds(x as int, y as int),
    ensures
        ends.0 == left_end(image.pixels@, image.width as int, y as int, x as int, from),
        ends.1 == right_end(image.pixels@, image.width as int, y as int, x as int, from),
        ends.0 <= x <= ends.1 < image.width,
{
    let width: usize = image.width;
    proof {
        lemma_place(width as int, image.height as int, x as int, y as int);
        lemma_place(width as int, image.height as int, 0, y as int);
        lemma_place(width as int, image.height as int, width - 1, y as int);
    }
    let row: usize = y * width;
    let mut left: usize = x;
    let mut right: usize = x;
    while left > 0 && image.pixels[row + left - 1] == from
        invariant
            left <= x < width,
            row == y * width,
            width == image.width,
            row + width <= image.pixels@.len(),
            row + width <= 0x4000_0000,
            left_end(image.pixels@, width as int, y as int, left as int, from) == left_end(
                image.pixels@,
                width as int,
                y as int,
                x as int,
                from,
            ),
        decreases left,
    {
        left -= 1;
    }
    while right < width - 1 && image.pixels[row + right + 1] == from
        invariant
            x <= right < width,
            row == y * width,
            width == image.width,
            row + width <= image.pixels@.len(),
            row + width <= 0x4000_0000,
            right_end(image.pixels@, width as int, y as int, right as int, from) == right_end(
                image.pixels@,
                width as int,
                y as int,
                x as int,
                from,
            ),
        decreases width - right,
    {
        right += 1;
    }
    (left, right)
}

/// The span around a seed of the colour `from` consists of pixels of that
/// colour; around any other seed, all but the seed are of it.
proof fn lemma_span_colour(pixels: Seq<Pixel>, w: int, x: int, y: int, from: Pixel, k: int)
    requires
        left_end(pixels, w, y, x, from) <= k <= right_end(pixels, w, y, x, from),
    ensures
        pixels[y * w + k] == from || k == x,
{
    if k < x {
        lemma_left_run(pixels, w, y, x, from, k);
    } else if k > x {
        lemma_right_run(pixels, w, y, x, from, k);
    }
}

/// A span function puts only ends of the span among the corners.
proof fn lemma_visit_corners(f: SpanFn, user: UserView, w: int, h: int, y: int, left: int, right: int)
    requires
        0 <= left <= right < w <= MAX_DIMENSION,
        0 <= y < h <= MAX_DIMENSION,
        corners_in(user, w, h),
    ensures
        corners_in(visit(f, user, y, left, right), w, h),
        user_kept(user, visit(f, user, y, left, right)),
{
    match user {
        UserView::Polygon(p) => {
            reveal_with_fuel(raised, 5);
            let l = Point { x: left as i32, y: y as i32 };
            let r = Point { x: right as i32, y: y as i32 };
            let q = visit(f, user, y, left, right)->Polygon_0;
            assert(q.corners.len() == 4 && q.scores.len() == 4);
            assert forall|j: int| 0 <= j < 4 implies #[trigger] q.corners[j] == p.corners[j]
                || q.corners[j] == l || q.corners[j] == r by {
                if f == SpanFn::FindOtherCorners {
                    let a = raise_four(p, left, y);
                    assert(a.corners[j] == p.corners[j] || a.corners[j] == l);
                }
            }
        },
        _ => {},
    }
}

/// A span that is painted and handed to its function keeps what every
/// fill keeps.
proof fn lemma_span_keeps(
    st: Fill,
    w: int,
    h: int,
    x: int,
    y: int,
    from: Pixel,
    to: Pixel,
    f: SpanFn,
)
    requires
        0 <= x < w <= MAX_DIMENSION,
        0 <= y < h <= MAX_DIMENSION,
        st.pixels.len() == w * h,
        from != to,
        fill_ready(f, st.user, st.pixels, w, h, st.pixels[y * w + x], from),
    ensures
        ({
            let left = left_end(st.pixels, w, y, x, from);
            let right = right_end(st.pixels, w, y, x, from);
            let painted = Fill {
                pixels: paint(st.pixels, y * w + left, y * w + right, to),
                user: visit(f, st.user, y, left, right),
            };
            &&& fill_keeps(st, painted, w, h, from, to, f, y * w + x)
            &&& f == SpanFn::AreaCount ==> tally(st.user) + right - left + 1 <= i32::MAX
            &&& f == SpanFn::AreaCount ==> tally(painted.user) > tally(st.user)
        }),
{
    let left = left_end(st.pixels, w, y, x, from);
    let right = right_end(st.pixels, w, y, x, from);
    let lo = y * w + left;
    let hi = y * w + right;
    let painted = Fill { pixels: paint(st.pixels, lo, hi, to), user: visit(f, st.user, y, left, right) };
    lemma_run_bounds(st.pixels, w, y, x, from);
    lemma_place(w, h, left, y);
    lemma_place(w, h, right, y);
    assert forall|k: int| 0 <= k < st.pixels.len() implies #[trigger] painted.pixels[k]
        == st.pixels[k] || (painted.pixels[k] == to && (st.pixels[k] == from || k == y * w + x)) by {
        if lo <= k <= hi {
            lemma_span_colour(st.pixels, w, x, y, from, k - y * w);
        }
    }
    if f == SpanFn::AreaCount {
        assert forall|k: int| lo <= k <= hi implies st.pixels[k] == from by {
            lemma_span_colour(st.pixels, w, x, y, from, k - y * w);
        }
        lemma_paint_count(st.pixels, lo, hi, from, to, st.pixels.len() as int);
        lemma_count_nonnegative(painted.pixels, from, st.pixels.len() as int);
    }
    if corners_in(st.user, w, h) {
        lemma_visit_corners(f, st.user, w, h, y, left, right);
    }
}

/// What is ready for a fill stays ready for the fills that follow it.
proof fn lemma_still_ready(
    a: Fill,
    b: Fill,
    w: int,
    h: int,
    seed: Pixel,
    from: Pixel,
    to: Pixel,
    f: SpanFn,
    root: int,
)
    requires
        fill_ready(f, a.user, a.pixels, w, h, seed, from),
        fill_keeps(a, b, w, h, from, to, f, root),
    ensures
        fill_ready(f, b.user, b.pixels, w, h, from, from),
{
}

/// Fills the region of pixels of the colour `from` around the seed
/// `(x, y)` with the colour `to`, and calls the function `func` for each
/// span that it paints. At the depth of recursion
/// [`FLOOD_FILL_MAX_DEPTH`] it does nothing, whatever it is given.
pub fn flood_fill_seed(
    image: &mut Image,
    x: i32,
    y: usize,
    from: Pixel,
    to: Pixel,
    func: SpanFn,
    user_data: &mut UserData,
    depth: usize,
)
    requires
        depth < FLOOD_FILL_MAX_DEPTH ==> {
            &&& old(image).wf()
            &&& old(image).holds(x as int, y as int)
            &&& from != to
            &&& fill_ready(
                func,
                old(user_data)@,
                old(image).pixels@,
                old(image).width as int,
                old(image).height as int,
                old(image).pixel(x as int, y as int),
                from,
            )
        },
    ensures
        old(image).wf() ==> final(image).wf(),
        final(image).width == old(image).width,
        final(image).height == old(image).height,
        depth >= FLOOD_FILL_MAX_DEPTH ==> *final(image) == *old(image) && *final(user_data) == *old(
            user_data,
        ),
        depth < FLOOD_FILL_MAX_DEPTH ==> final(image).pixel(x as int, y as int) == to,
        fill_of(final(image), final(user_data)) == spec_flood_fill(
            fill_of(old(image), old(user_data)),
            old(image).width as int,
            old(image).height as int,
            x as int,
            y as int,
            from,
            to,
            func,
            depth as int,
        ),
        fill_keeps(
            fill_of(old(image), old(user_data)),
            fill_of(final(image), final(user_data)),
            old(image).width as int,
            old(image).height as int,
            from,
            to,
            func,
            y * old(image).width + x,
        ),
        func == SpanFn::AreaCount && depth < FLOOD_FILL_MAX_DEPTH ==> tally(final(user_data)@)
            > tally(old(user_data)@),
        fill_within(
            old(image).pixels@,
            final(image).pixels@,
            old(image).width as int,
            old(image).height as int,
            from,
            x as int,
            y as int,
        ),
    decreases FLOOD_FILL_MAX_DEPTH - depth, 1int,
{
    let ghost start = fill_of(image, user_data);
    let ghost w = image.width as int;
    let ghost h = image.height as int;
    let ghost root = y * w + x;
    if depth >= FLOOD_FILL_MAX_DEPTH {
        return ;
    }
    let height: usize = image.height;
    let (left, right) = span_ends(image, x as usize, y, from);
    proof {
        lemma_span_keeps(start, w, h, x as int, y as int, from, to, func);
    }
    paint_span(image, y, left, right, to);
    call_span_fn(func, user_data, y, left, right);
    let ghost painted = fill_of(image, user_data);
    proof {
        lemma_still_ready(start, painted, w, h, start.pixels[root], from, to, func, root);
    }
    if y > 0 {
        seed_row(image, y - 1, left, right, from, to, func, user_data, depth);
    }
    let ghost above = fill_of(image, user_data);
    proof {
        lemma_keeps_both(start, painted, above, w, h, from, to, func, root);
        lemma_still_ready(start, above, w, h, start.pixels[root], from, to, func, root);
    }
    if y < height - 1 {
        seed_row(image, y + 1, left, right, from, to, func, user_data, depth);
    }
    proof {
        let end = fill_of(image, user_data);
        lemma_keeps_both(start, above, end, w, h, from, to, func, root);
        lemma_place(w, h, x as int, y as int);
        assert(painted.pixels[root] == to);
        assert(above.pixels[root] == painted.pixels[root] || above.pixels[root] == to);
        assert(end.pixels[root] == above.pixels[root] || end.pixels[root] == to);
        assert forall|px: int, py: int|
            0 <= px < w && 0 <= py < h && end.pixels[py * w + px] != start.pixels[py * w
                + px] implies #[trigger] connected(
            start.pixels,
            w,
            h,
            from,
            x as int,
            y as int,
            px,
            py,
        ) by {
            let k = py * w + px;
            lemma_place(w, h, px, py);
            lemma_run_bounds(start.pixels, w, y as int, x as int, from);
            assert(painted.pixels[k] == start.pixels[k] || painted.pixels[k] == to);
            assert(above.pixels[k] == painted.pixels[k] || above.pixels[k] == to);
            if painted.pixels[k] != start.pixels[k] {
                lemma_place_in_row(w, y as int, left as int, right as int, px, py);
                lemma_span_connected(start.pixels, w, h, x as int, y as int, from, px);
            } else if above.pixels[k] != painted.pixels[k] {
                assert(connected_to_row(
                    painted.pixels,
                    w,
                    h,
                    from,
                    y - 1,
                    left as int,
                    right as int,
                    px,
                    py,
                ));
                lemma_connected_through_row(
                    start.pixels,
                    painted.pixels,
                    w,
                    h,
                    from,
                    x as int,
                    y as int,
                    y - 1,
                    px,
                    py,
                );
            } else {
                assert(connected_to_row(
                    above.pixels,
                    w,
                    h,
                    from,
                    y + 1,
                    left as int,
                    right as int,
                    px,
                    py,
                ));
                lemma_connected_through_row(
                    start.pixels,
                    above.pixels,
                    w,
                    h,
                    from,
                    x as int,
                    y as int,
                    y + 1,
                    px,
                    py,
                );
            }
        }
    }
}

/// Starts a fill from each pixel of the colour `from` among those from
/// `left` to `right` in the row `row`, from left to right.
fn seed_row(
    image: &mut Image,
    row: usize,
    left: usize,
    right: usize,
    from: Pixel,
    to: Pixel,
    func: SpanFn,
    user_data: &mut UserData,
    depth: usize,
)
    requires
        old(image).wf(),
        row < old(image).height,
        left <= right < old(image).width,
        from != to,
        depth < FLOOD_FILL_MAX_DEPTH,
        fill_ready(
            func,
            old(user_data)@,
            old(image).pixels@,
            old(image).width as int,
            old(image).height as int,
            from,
            from,
        ),
    ensures
        final(image).wf(),
        final(image).width == old(image).width,
        final(image).height == old(image).height,
        fill_of(final(image), final(user_data)) == spec_seed_row(
            fill_of(old(image), old(user_data)),
            old(image).width as int,
            old(image).height as int,
            row as int,
            left as int,
            right as int,
            from,
            to,
            func,
            depth as int,
        ),
        fill_keeps(
            fill_of(old(image), old(user_data)),
            fill_of(final(image), final(user_data)),
            old(image).width as int,
            old(image).height as int,
            from,
            to,
            func,
            -1,
        ),
        fill_within_row(
            old(image).pixels@,
            final(image).pixels@,
            old(image).width as int,
            old(image).height as int,
            from,
            row as int,
            left as int,
            right as int,
        ),
    decreases FLOOD_FILL_MAX_DEPTH - depth, 0int,
{
    let ghost start = fill_of(image, user_data);
    let ghost w = image.width as int;
    let ghost h = image.height as int;
    let ghost goal = spec_seed_row(start, w, h, row as int, left as int, right as int, from, to, func, depth as int);
    let width: usize = image.width;
    proof {
        lemma_place(w, h, right as int, row as int);
    }
    let offset: usize = row * width;
    let mut i: usize = left;
    while i <= right
        invariant
            left <= i <= right + 1,
            right < width,
            row < image.height,
            width == image.width,
            w == width,
            h == image.height,
            image.width == old(image).width,
            image.height == old(image).height,
            image.wf(),
            offset == row * width,
            offset + right < 0x4000_0000,
            from != to,
            depth < FLOOD_FILL_MAX_DEPTH,
            start == fill_of(old(image), old(user_data)),
            fill_ready(func, user_data@, image.pixels@, w, h, from, from),
            fill_keeps(start, fill_of(image, user_data), w, h, from, to, func, -1),
            fill_within_row(
                start.pixels,
                image.pixels@,
                w,
                h,
                from,
                row as int,
                left as int,
                right as int,
            ),
            goal == spec_seed_row(
                fill_of(image, user_data),
                w,
                h,
                row as int,
                i as int,
                right as int,
                from,
                to,
                func,
                depth as int,
            ),
        decreases right + 1 - i,
    {
        let ghost here = fill_of(image, user_data);
        proof {
            lemma_place(w, h, i as int, row as int);
        }
        if image.pixels[offset + i] == from {
            flood_fill_seed(image, i as i32, row, from, to, func, user_data, depth + 1);
            proof {
                let next = fill_of(image, user_data);
                lemma_keeps_strictly(here, next, w, h, from, to, func, row * w + i);
                lemma_keeps_both(start, here, next, w, h, from, to, func, -1);
                lemma_still_ready(here, next, w, h, from, from, to, func, -1);
                assert forall|k: int| 0 <= k < here.pixels.len() && here.pixels[k]
                    == from implies start.pixels[k] == from by {
                    assert(here.pixels[k] == start.pixels[k] || here.pixels[k] == to);
                }
                assert forall|px: int, py: int|
                    0 <= px < w && 0 <= py < h && next.pixels[py * w + px] != start.pixels[py * w
                        + px] implies #[trigger] connected_to_row(
                    start.pixels,
                    w,
                    h,
                    from,
                    row as int,
                    left as int,
                    right as int,
                    px,
                    py,
                ) by {
                    lemma_place(w, h, px, py);
                    if here.pixels[py * w + px] == start.pixels[py * w + px] {
                        assert(connected(here.pixels, w, h, from, i as int, row as int, px, py));
                        lemma_connected_before(
                            start.pixels,
                            here.pixels,
                            w,
                            h,
                            from,
                            i as int,
                            row as int,
                            px,
                            py,
                        );
                        assert(connected(start.pixels, w, h, from, i as int, row as int, px, py));
                    }
                }
            }
        }
        i += 1;
    }
}


/// There are no more pixels of a colour than pixels.
pub proof fn lemma_count_bound(pixels: Seq<Pixel>, v: Pixel, n: int)
    requires
        0 <= n,
    ensures
        0 <= count_of(pixels, v, n) <= n,
    decreases n,
{
    if n > 0 {
        lemma_count_bound(pixels, v, n - 1);
    }
}

/// What [`region_code`] gives: the code of the pixel, and the pixels and
/// the regions as it leaves them.
pub struct Coded {
    pub code: int,
    pub pixels: Seq<Pixel>,
    pub regions: Seq<Region>,
}

/// The region made for the seed `(x, y)`, as the `index`-th region: its
/// pixels, which are unclaimed foreground, are painted with its index and
/// counted.
pub open spec fn new_region(pixels: Seq<Pixel>, w: int, h: int, x: int, y: int, index: int) -> Fill {
    spec_flood_fill(
        Fill {
            pixels,
            user: UserView::Region(
                Region { seed: Point { x: x as i32, y: y as i32 }, count: 0, capstone: -1i32 },
            ),
        },
        w,
        h,
        x,
        y,
        1,
        index as Pixel,
        SpanFn::AreaCount,
        0,
    )
}

/// The region code of the pixel at `(x, y)` of a frame of `w` by `h`
/// pixels: -1 for a pixel outside the frame and for background; the pixel
/// itself where a region has claimed it; and for unclaimed foreground the
/// index of a new region, which is made for it, or -1 where there are
/// [`MAX_REGIONS`] regions already.
pub open spec fn spec_region_code(
    pixels: Seq<Pixel>,
    regions: Seq<Region>,
    w: int,
    h: int,
    x: int,
    y: int,
) -> Coded {
    if !(0 <= x < w && 0 <= y < h) || pixels[y * w + x] == 0 {
        Coded { code: -1, pixels, regions }
    } else if pixels[y * w + x] >= 2 {
        Coded { code: pixels[y * w + x] as int, pixels, regions }
    } else if regions.len() >= MAX_REGIONS {
        Coded { code: -1, pixels, regions }
    } else {
        let made = new_region(pixels, w, h, x, y, regions.len() as int);
        Coded {
            code: regions.len() as int,
            pixels: made.pixels,
            regions: regions.push(made.user->Region_0),
        }
    }
}

/// Are the regions from the second on regions of the frame: is the seed
/// of each a pixel of the frame, and has each at least one pixel?
pub open spec fn regions_ok(regions: Seq<Region>, w: int, h: int) -> bool {
    &&& 2 <= regions.len() <= MAX_REGIONS
    &&& forall|k: int|
        2 <= k < regions.len() ==> {
            &&& 0 <= (#[trigger] regions[k]).seed.x < w
            &&& 0 <= regions[k].seed.y < h
            &&& 1 <= regions[k].count
        }
}

/// Is every pixel background, unclaimed foreground, or the index of one
/// of `n` regions?
pub open spec fn pixels_ok(pixels: Seq<Pixel>, n: int) -> bool {
    forall|k: int| 0 <= k < pixels.len() ==> (#[trigger] pixels[k]) < 2 || pixels[k] < n
}

/// Finds the region of the pixel at `(x, y)`. A foreground pixel that no
/// region has claimed yet becomes the seed of a new region, which is
/// filled and counted.
pub fn region_code(image: &mut Image, regions: &mut Vec<Region>, x: i32, y: usize) -> (code: i32)
    requires
        old(image).wf(),
        regions_ok(old(regions)@, old(image).width as int, old(image).height as int),
        pixels_ok(old(image).pixels@, old(regions)@.len() as int),
    ensures
        final(image).wf(),
        final(image).width == old(image).width,
        final(image).height == old(image).height,
        regions_ok(final(regions)@, old(image).width as int, old(image).height as int),
        pixels_ok(final(image).pixels@, final(regions)@.len() as int),
        (Coded { code: code as int, pixels: final(image).pixels@, regions: final(regions)@ })
            == spec_region_code(
            old(image).pixels@,
            old(regions)@,
            old(image).width as int,
            old(image).height as int,
            x as int,
            y as int,
        ),
        code == -1 || 2 <= code < final(regions)@.len(),
        old(regions)@.len() <= final(regions)@.len() <= old(regions)@.len() + 1,
        forall|k: int| 0 <= k < old(regions)@.len() ==> final(regions)@[k] == old(regions)@[k],
        final(regions)@.len() > old(regions)@.len() ==> {
            &&& final(regions)@.last().capstone == -1
            &&& final(regions)@.last().seed == (Point { x, y: y as i32 })
            &&& final(regions)@.last().count == total_of(old(image).pixels@, 1) - total_of(
                final(image).pixels@,
                1,
            )
        },
        forall|k: int|
            0 <= k < old(image).pixels@.len() ==> #[trigger] final(image).pixels@[k] == old(
                image,
            ).pixels@[k] || (old(image).pixels@[k] == 1 && final(image).pixels@[k] == old(
                regions,
            )@.len()),
        fill_within(
            old(image).pixels@,
            final(image).pixels@,
            old(image).width as int,
            old(image).height as int,
            1,
            x as int,
            y as int,
        ),
{
    if x < 0 || x as usize >= image.width || y >= image.height {
        return -1;
    }
    let pixel: Pixel = image.get(x as usize, y);
    if pixel >= 2 {
        proof {
            image.lemma_at(x as int, y as int);
            assert(image.pixels@[image.at(x as int, y as int)] < regions@.len());
        }
        return pixel as i32;
    }
    if pixel == 0 {
        return -1;
    }
    let region: usize = regions.len();
    if region >= MAX_REGIONS {
        return -1;
    }
    let mut user = UserData::Region(Region { seed: Point { x, y: y as i32 }, count: 0, capstone: -1 });
    proof {
        lemma_count_bound(image.pixels@, pixel, image.pixels@.len() as int);
        lemma_place(image.width as int, image.height as int, x as int, y as int);
    }
    let ghost start = fill_of(image, &user);
    flood_fill_seed(image, x, y, pixel, region as Pixel, SpanFn::AreaCount, &mut user, 0);
    proof {
        lemma_keeps_strictly(
            start,
            fill_of(image, &user),
            image.width as int,
            image.height as int,
            pixel,
            region as Pixel,
            SpanFn::AreaCount,
            y * image.width + x,
        );
    }
    match user {
        UserData::Region(r) => {
            regions.push(r);
        },
        _ => {},
    }
    region as i32
}


/// The data with which the search for the first corner of a region
/// starts: the reference is `point`, and any pixel is farther from it than
/// nothing.
pub open spec fn first_search(region: Region, point: Point) -> PolygonView {
    PolygonView {
        ref_0: point,
        scores: seq![-1i32, 0i32, 0i32, 0i32],
        corners: seq![region.seed, region.seed, region.seed, region.seed],
    }
}

/// The data with which the search for the other corners starts, after the
/// first search has left `first`: the reference is the direction from the
/// point to the first corner, and every corner is the seed of the region.
pub open spec fn second_search(region: Region, first: PolygonView) -> PolygonView {
    let dir = Point {
        x: (first.corners[0].x - first.ref_0.x) as i32,
        y: (first.corners[0].y - first.ref_0.y) as i32,
    };
    let i = region.seed.x * dir.x + region.seed.y * dir.y;
    let j = region.seed.x * -dir.y + region.seed.y * dir.x;
    PolygonView {
        ref_0: dir,
        scores: seq![i as i32, j as i32, (-i) as i32, (-j) as i32],
        corners: seq![region.seed, region.seed, region.seed, region.seed],
    }
}

/// What the search for the corners of the region with the colour `rcode`
/// leaves: a first fill of the region, into unclaimed foreground, finds
/// the pixel farthest from `point`; a second fill, back into the colour of
/// the region, finds for each of four directions the pixel farthest in
/// it, the first of the directions being the one from `point` to the
/// pixel of the first fill.
pub open spec fn spec_find_region_corners(
    pixels: Seq<Pixel>,
    w: int,
    h: int,
    region: Region,
    rcode: Pixel,
    point: Point,
) -> Fill {
    let first = spec_flood_fill(
        Fill { pixels, user: UserView::Polygon(first_search(region, point)) },
        w,
        h,
        region.seed.x as int,
        region.seed.y as int,
        rcode,
        1,
        SpanFn::FindOneCorner,
        0,
    );
    spec_flood_fill(
        Fill {
            pixels: first.pixels,
            user: UserView::Polygon(second_search(region, first.user->Polygon_0)),
        },
        w,
        h,
        region.seed.x as int,
        region.seed.y as int,
        1,
        rcode,
        SpanFn::FindOtherCorners,
        0,
    )
}

/// Finds the four corners of the region with the colour `rcode`, as seen
/// from `point`, and writes them to `corners`.
pub fn find_region_corners(
    image: &mut Image,
    region: &Region,
    rcode: Pixel,
    point: &Point,
    corners: &mut [Point; 4],
)
    requires
        old(image).wf(),
        old(image).holds(region.seed.x as int, region.seed.y as int),
        old(image).holds(point.x as int, point.y as int),
        rcode != 1,
    ensures
        final(image).wf(),
        final(image).width == old(image).width,
        final(image).height == old(image).height,
        ({
            let found = spec_find_region_corners(
                old(image).pixels@,
                old(image).width as int,
                old(image).height as int,
                *region,
                rcode,
                *point,
            );
            &&& final(image).pixels@ == found.pixels
            &&& found.user is Polygon
            &&& final(corners)@ == found.user->Polygon_0.corners
        }),
        forall|j: int| 0 <= j < 4 ==> old(image).holds(
            (#[trigger] final(corners)@[j]).x as int,
            final(corners)@[j].y as int,
        ),
        forall|k: int|
            0 <= k < old(image).pixels@.len() ==> #[trigger] final(image).pixels@[k] == old(
                image,
            ).pixels@[k] || final(image).pixels@[k] == 1 || final(image).pixels@[k] == rcode,
{
    let ghost w = image.width as int;
    let ghost h = image.height as int;
    let seed: Point = region.seed;
    let mut psd = PolygonScoreData {
        ref_0: *point,
        scores: [-1, 0, 0, 0],
        corners: [seed, seed, seed, seed],
    };
    assert(psd@ =~= first_search(*region, *point)) by {
        assert(psd@.scores =~= first_search(*region, *point).scores);
        assert(psd@.corners =~= first_search(*region, *point).corners);
    }
    let mut user = UserData::Polygon(psd);
    let ghost start = fill_of(image, &user);
    flood_fill_seed(image, seed.x, seed.y as usize, rcode, 1, SpanFn::FindOneCorner, &mut user, 0);
    let ghost first = fill_of(image, &user);
    let mut psd = user.into_polygon();
    assert(0 <= psd.corners@[0].x < w && 0 <= psd.corners@[0].y < h);
    psd.ref_0.x = psd.corners[0].x - psd.ref_0.x;
    psd.ref_0.y = psd.corners[0].y - psd.ref_0.y;
    psd.corners = [seed, seed, seed, seed];
    proof {
        lemma_coordinate_product(seed.x as int, psd.ref_0.x as int);
        lemma_coordinate_product(seed.y as int, psd.ref_0.y as int);
        lemma_coordinate_product(seed.x as int, -psd.ref_0.y as int);
        lemma_coordinate_product(seed.y as int, psd.ref_0.x as int);
    }
    let i: i32 = seed.x * psd.ref_0.x + seed.y * psd.ref_0.y;
    psd.scores[0] = i;
    psd.scores[2] = -i;
    let j: i32 = seed.x * -psd.ref_0.y + seed.y * psd.ref_0.x;
    psd.scores[1] = j;
    psd.scores[3] = -j;
    assert(psd@ =~= second_search(*region, first.user->Polygon_0)) by {
        assert(psd@.scores =~= second_search(*region, first.user->Polygon_0).scores);
        assert(psd@.corners =~= second_search(*region, first.user->Polygon_0).corners);
    }
    let mut user = UserData::Polygon(psd);
    flood_fill_seed(image, seed.x, seed.y as usize, 1, rcode, SpanFn::FindOtherCorners, &mut user, 0);
    let psd = user.into_polygon();
    *corners = psd.corners;
    proof {
        assert forall|k: int| 0 <= k < start.pixels.len() implies #[trigger] image.pixels@[k]
            == start.pixels[k] || image.pixels@[k] == 1 || image.pixels@[k] == rcode by {
            assert(first.pixels[k] == start.pixels[k] || first.pixels[k] == 1);
        }
    }
}


/// The fill gives up at the depth cap: from there on it changes neither
/// the pixels nor the data, whatever the seed. No fill goes deeper, so a
/// region that winds on beyond the cap is left partly unpainted.
pub proof fn lemma_fill_gives_up(
    st: Fill,
    w: int,
    h: int,
    x: int,
    y: int,
    from: Pixel,
    to: Pixel,
    f: SpanFn,
    depth: int,
)
    requires
        depth >= FLOOD_FILL_MAX_DEPTH,
    ensures
        spec_flood_fill(st, w, h, x, y, from, to, f, depth) == st,
        spec_seed_row(st, w, h, y, x, w - 1, from, to, f, depth) == st,
{
}

} // verus!
