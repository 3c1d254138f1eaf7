use crate::image::Image;
use crate::quirc::{Pixel, Point, Region};
use crate::region::{ref_is_direction, MAX_REGIONS};
use crate::geometry::{line_intersect, spec_line_intersect, trunc_div};
use crate::region::{
    find_region_corners, flood_fill_seed, pixels_ok, region_code, regions_ok, Coded,
    spec_find_region_corners, spec_flood_fill, spec_region_code, Fill, PolygonScoreData,
    PolygonView, SpanFn, UserData, UserView,
};
use crate::scan::{magnitude, spec_timing_scan, timing_scan};
use vstd::prelude::*;

verus! {

/// The most capstones of a frame.
pub const MAX_CAPSTONES: usize = 32;

/// The most grids of a frame.
pub const MAX_GRIDS: usize = 8;

/// One of the three finder patterns of a symbol, as far as whole numbers
/// tell of it: the regions of its ring and of its stone, the four corners
/// of the ring, its centre, and the grid that it belongs to, or -1.
#[derive(Debug, Copy, Clone)]
pub struct Capstone {
    pub ring: i32,
    pub stone: i32,
    pub corners: [Point; 4],
    pub center: Point,
    pub qr_grid: i32,
}

/// The mathematical content of a [`Capstone`].
pub struct CapstoneView {
    pub ring: int,
    pub stone: int,
    pub corners: Seq<Point>,
    pub center: Point,
    pub qr_grid: int,
}

impl View for Capstone {
    type V = CapstoneView;

    open spec fn view(&self) -> CapstoneView {
        CapstoneView {
            ring: self.ring as int,
            stone: self.stone as int,
            corners: self.corners@,
            center: self.center,
            qr_grid: self.qr_grid as int,
        }
    }
}

/// The content of each of the capstones.
pub open spec fn views(capstones: Seq<Capstone>) -> Seq<CapstoneView> {
    Seq::new(capstones.len(), |k: int| capstones[k]@)
}

/// What the search for capstones works on: the pixels of the frame, the
/// regions and the capstones found so far.
pub struct Scene {
    pub pixels: Seq<Pixel>,
    pub regions: Seq<Region>,
    pub capstones: Seq<CapstoneView>,
}

/// Where the frame, the regions and the capstones stand.
pub open spec fn scene_of(image: &Image, regions: &Vec<Region>, capstones: &Vec<Capstone>) -> Scene {
    Scene { pixels: image.pixels@, regions: regions@, capstones: views(capstones@) }
}

/// Is the scene one of a frame of `w` by `h` pixels: do the pixels fill
/// it, are the regions regions of it, is every pixel background,
/// unclaimed foreground or the index of a region, and do the regions name
/// their capstones rightly?
pub open spec fn scene_ok(sc: Scene, w: int, h: int) -> bool {
    &&& sc.pixels.len() == w * h
    &&& regions_ok(sc.regions, w, h)
    &&& pixels_ok(sc.pixels, sc.regions.len() as int)
    &&& links_ok(sc.regions, sc.capstones)
}

/// Does every region that a capstone owns name a capstone of which it is
/// the ring or the stone?
pub open spec fn links_ok(regions: Seq<Region>, capstones: Seq<CapstoneView>) -> bool {
    &&& capstones.len() <= MAX_CAPSTONES
    &&& forall|k: int|
        2 <= k < regions.len() && (#[trigger] regions[k]).capstone >= 0 ==> {
            &&& regions[k].capstone < capstones.len()
            &&& (capstones[regions[k].capstone as int].ring == k
                || capstones[regions[k].capstone as int].stone == k)
        }
}

/// Is every capstone among `after` that is bound to a grid one that was
/// bound to it among `before`?
pub open spec fn binds_kept(before: Seq<CapstoneView>, after: Seq<CapstoneView>) -> bool {
    &&& before.len() <= after.len()
    &&& forall|i: int|
        0 <= i < after.len() ==> (#[trigger] after[i]).qr_grid == -1 || (i < before.len()
            && after[i].qr_grid == before[i].qr_grid)
}

/// The region `r` as one that the capstone `index` owns.
pub open spec fn owned(r: Region, index: int) -> Region {
    Region { capstone: index as i32, ..r }
}

/// The scene once the regions `ring` and `stone` are recorded as a
/// capstone: both regions are owned by the new capstone, and the corners
/// of the ring, as seen from the seed of the stone, are found. The centre
/// is left at the origin and the capstone bound to no grid. Where there
/// are [`MAX_CAPSTONES`] capstones already, nothing is recorded.
pub open spec fn spec_record_capstone(sc: Scene, w: int, h: int, ring: int, stone: int) -> Scene {
    if sc.capstones.len() >= MAX_CAPSTONES {
        sc
    } else {
        let index = sc.capstones.len() as int;
        let marked = sc.regions.update(stone, owned(sc.regions[stone], index));
        let regions = marked.update(ring, owned(marked[ring], index));
        let found = spec_find_region_corners(
            sc.pixels,
            w,
            h,
            regions[ring],
            ring as Pixel,
            regions[stone].seed,
        );
        Scene {
            pixels: found.pixels,
            regions,
            capstones: sc.capstones.push(
                CapstoneView {
                    ring,
                    stone,
                    corners: found.user->Polygon_0.corners,
                    center: Point { x: 0, y: 0 },
                    qr_grid: -1,
                },
            ),
        }
    }
}

/// Records the regions `ring` and `stone` as a capstone and finds the
/// corners of the ring.
pub fn record_capstone(
    image: &mut Image,
    regions: &mut Vec<Region>,
    capstones: &mut Vec<Capstone>,
    ring: Pixel,
    stone: i32,
)
    requires
        old(image).wf(),
        scene_ok(
            scene_of(old(image), old(regions), old(capstones)),
            old(image).width as int,
            old(image).height as int,
        ),
        2 <= ring < old(regions)@.len(),
        2 <= stone < old(regions)@.len(),
    ensures
        final(image).wf(),
        final(image).width == old(image).width,
        final(image).height == old(image).height,
        scene_of(final(image), final(regions), final(capstones)) == spec_record_capstone(
            scene_of(old(image), old(regions), old(capstones)),
            old(image).width as int,
            old(image).height as int,
            ring as int,
            stone as int,
        ),
        scene_ok(
            scene_of(final(image), final(regions), final(capstones)),
            old(image).width as int,
            old(image).height as int,
        ),
        final(regions)@.len() == old(regions)@.len(),
        binds_kept(views(old(capstones)@), views(final(capstones)@)),
{
    if capstones.len() >= MAX_CAPSTONES {
        return ;
    }
    let ghost before = scene_of(image, regions, capstones);
    let cs_index: i32 = capstones.len() as i32;
    let mut s: Region = regions[stone as usize];
    s.capstone = cs_index;
    regions[stone as usize] = s;
    let mut r: Region = regions[ring as usize];
    r.capstone = cs_index;
    regions[ring as usize] = r;
    let seed: Point = regions[stone as usize].seed;
    let mut corners = [Point { x: 0, y: 0 };4];
    assert(0 <= regions@[ring as int].seed.x && 0 <= regions@[stone as int].seed.x);
    find_region_corners(image, &r, ring, &seed, &mut corners);
    capstones.push(
        Capstone { qr_grid: -1, ring: ring as i32, stone, corners, center: Point { x: 0, y: 0 } },
    );
    proof {
        let want = spec_record_capstone(
            before,
            image.width as int,
            image.height as int,
            ring as int,
            stone as int,
        );
        assert(views(capstones@) =~= want.capstones);
        assert(regions@ =~= want.regions);
        assert forall|k: int| 2 <= k < regions@.len() implies {
            &&& 0 <= (#[trigger] regions@[k]).seed.x < image.width
            &&& 0 <= regions@[k].seed.y < image.height
            &&& 1 <= regions@[k].count
        } by {
            assert(before.regions[k].count >= 1);
        }
    }
}

/// What the search for capstones in a row has in hand: the colour of the
/// pixel before, the length of the run of that colour, the number of runs
/// that have ended, and the lengths of the last five of them.
pub struct RowState {
    pub last_color: int,
    pub run_length: int,
    pub run_count: int,
    pub pb: Seq<i32>,
}

/// Are the five runs in the ratio 1 : 1 : 3 : 1 : 1 of a finder pattern,
/// each within three quarters of the mean of the four short ones?
pub open spec fn is_finder_pattern(pb: Seq<i32>) -> bool {
    let avg = (pb[0] + pb[1] + pb[3] + pb[4]) / 4;
    let err = avg * 3 / 4;
    &&& avg - err <= pb[0] <= avg + err
    &&& avg - err <= pb[1] <= avg + err
    &&& 3 * avg - err <= pb[2] <= 3 * avg + err
    &&& avg - err <= pb[3] <= avg + err
    &&& avg - err <= pb[4] <= avg + err
}

/// The scene once the runs `pb`, the last of which ends just left of
/// `(x, y)`, are tested for a capstone: the regions of the right half of
/// the ring, of the stone and of the left half of the ring are looked up,
/// or made, at the places that the runs give. They are recorded as a
/// capstone where all three are there, the two halves of the ring are one
/// region and the stone another, neither belongs to a capstone yet, and
/// the stone has from 10 to 70 hundredths of the pixels of the ring.
pub open spec fn spec_test_capstone(sc: Scene, w: int, h: int, x: int, y: int, pb: Seq<i32>) -> Scene {
    let r1 = spec_region_code(sc.pixels, sc.regions, w, h, x - pb[4], y);
    let r2 = spec_region_code(r1.pixels, r1.regions, w, h, x - pb[4] - pb[3] - pb[2], y);
    let r3 = spec_region_code(
        r2.pixels,
        r2.regions,
        w,
        h,
        x - pb[4] - pb[3] - pb[2] - pb[1] - pb[0],
        y,
    );
    let ring_right = r1.code;
    let stone = r2.code;
    let ring_left = r3.code;
    let looked = Scene { pixels: r3.pixels, regions: r3.regions, capstones: sc.capstones };
    if ring_left < 0 || ring_right < 0 || stone < 0 || ring_left != ring_right || ring_left
        == stone {
        looked
    } else if r3.regions[stone].capstone >= 0 || r3.regions[ring_left].capstone >= 0 {
        looked
    } else {
        let ratio = r3.regions[stone].count * 100 / (r3.regions[ring_left].count as int);
        if ratio < 10 || ratio > 70 {
            looked
        } else {
            spec_record_capstone(looked, w, h, ring_left, stone)
        }
    }
}

/// Are the runs lengths of runs of a row?
pub open spec fn runs_ok(pb: Seq<i32>) -> bool {
    pb.len() == 5 && forall|k: int| 0 <= k < 5 ==> 0 <= #[trigger] pb[k] <= 0x7fff
}

/// Tests whether the five runs `pb`, the last of which ends just left of
/// `(x, y)`, lie across a capstone, and records the capstone if so.
pub fn test_capstone(
    image: &mut Image,
    regions: &mut Vec<Region>,
    capstones: &mut Vec<Capstone>,
    x: i32,
    y: usize,
    pb: &[i32; 5],
)
    requires
        old(image).wf(),
        scene_ok(
            scene_of(old(image), old(regions), old(capstones)),
            old(image).width as int,
            old(image).height as int,
        ),
        runs_ok(pb@),
        0 <= x <= 0x7fff,
    ensures
        final(image).wf(),
        final(image).width == old(image).width,
        final(image).height == old(image).height,
        scene_of(final(image), final(regions), final(capstones)) == spec_test_capstone(
            scene_of(old(image), old(regions), old(capstones)),
            old(image).width as int,
            old(image).height as int,
            x as int,
            y as int,
            pb@,
        ),
        scene_ok(
            scene_of(final(image), final(regions), final(capstones)),
            old(image).width as int,
            old(image).height as int,
        ),
        binds_kept(views(old(capstones)@), views(final(capstones)@)),
{
    assert(0 <= pb@[0] && 0 <= pb@[1] && 0 <= pb@[2] && 0 <= pb@[3] && 0 <= pb@[4]);
    let ring_right: i32 = region_code(image, regions, x - pb[4], y);
    let stone: i32 = region_code(image, regions, x - pb[4] - pb[3] - pb[2], y);
    let ring_left: i32 = region_code(
        image,
        regions,
        x - pb[4] - pb[3] - pb[2] - pb[1] - pb[0],
        y,
    );
    if ring_left < 0 || ring_right < 0 || stone < 0 {
        return ;
    }
    if ring_left != ring_right {
        return ;
    }
    if ring_left == stone {
        return ;
    }
    let stone_reg: Region = regions[stone as usize];
    let ring_reg: Region = regions[ring_left as usize];
    if stone_reg.capstone >= 0 || ring_reg.capstone >= 0 {
        return ;
    }
    assert(regions@[ring_left as int].count >= 1 && regions@[stone as int].count >= 1);
    let ratio: i64 = (stone_reg.count as i64 * 100) / (ring_reg.count as i64);
    if ratio < 10 || ratio > 70 {
        return ;
    }
    record_capstone(image, regions, capstones, ring_left as Pixel, stone);
}

/// The state in which the search of a row starts.
pub open spec fn row_start() -> RowState {
    RowState { last_color: 0, run_length: 0, run_count: 0, pb: seq![0i32, 0i32, 0i32, 0i32, 0i32] }
}

/// The runs once one of the length `run` has ended.
pub open spec fn shifted(pb: Seq<i32>, run: int) -> Seq<i32> {
    seq![pb[1], pb[2], pb[3], pb[4], run as i32]
}

/// Does the pixel at `(x, y)`, which is of the colour `color`, end a run?
pub open spec fn ends_run(st: RowState, x: int, color: int) -> bool {
    x != 0 && color != st.last_color
}

/// The state of the search once the pixel at `(x, y)` is looked at.
pub open spec fn row_step(st: RowState, x: int, color: int) -> RowState {
    if ends_run(st, x, color) {
        RowState {
            last_color: color,
            run_length: 1,
            run_count: st.run_count + 1,
            pb: shifted(st.pb, st.run_length),
        }
    } else {
        RowState { last_color: color, run_length: st.run_length + 1, ..st }
    }
}

/// The colour of a pixel: 1 for foreground, 0 for background.
pub open spec fn color_of(p: Pixel) -> int {
    if p != 0 {
        1
    } else {
        0
    }
}

/// The scene once the row `y` is searched from the pixel `x` on: at every
/// pixel of background that ends a run of foreground, where five runs or
/// more have ended and the last five have the ratio of a finder pattern,
/// they are tested for a capstone.
pub open spec fn spec_finder_row(sc: Scene, st: RowState, w: int, h: int, x: int, y: int) -> Scene
    decreases w - x,
{
    if x >= w {
        sc
    } else {
        let color = color_of(sc.pixels[y * w + x]);
        let next = row_step(st, x, color);
        let tested = if ends_run(st, x, color) && color == 0 && next.run_count >= 5
            && is_finder_pattern(next.pb) {
            spec_test_capstone(sc, w, h, x, y, next.pb)
        } else {
            sc
        };
        spec_finder_row(tested, next, w, h, x + 1, y)
    }
}

/// The scene once the row `y` is searched for capstones.
pub open spec fn spec_finder_scan(sc: Scene, w: int, h: int, y: int) -> Scene {
    spec_finder_row(sc, row_start(), w, h, 0, y)
}

/// Searches the row `y` for capstones.
pub fn finder_scan(
    image: &mut Image,
    regions: &mut Vec<Region>,
    capstones: &mut Vec<Capstone>,
    y: usize,
)
    requires
        old(image).wf(),
        y < old(image).height,
        scene_ok(
            scene_of(old(image), old(regions), old(capstones)),
            old(image).width as int,
            old(image).height as int,
        ),
    ensures
        final(image).wf(),
        final(image).width == old(image).width,
        final(image).height == old(image).height,
        scene_of(final(image), final(regions), final(capstones)) == spec_finder_scan(
            scene_of(old(image), old(regions), old(capstones)),
            old(image).width as int,
            old(image).height as int,
            y as int,
        ),
        scene_ok(
            scene_of(final(image), final(regions), final(capstones)),
            old(image).width as int,
            old(image).height as int,
        ),
        binds_kept(views(old(capstones)@), views(final(capstones)@)),
{
    let ghost w = image.width as int;
    let ghost h = image.height as int;
    let ghost goal = spec_finder_scan(scene_of(image, regions, capstones), w, h, y as int);
    let width: usize = image.width;
    let mut last_color: i32 = 0;
    let mut run_length: i32 = 0;
    let mut run_count: i32 = 0;
    let mut pb: [i32; 5] = [0, 0, 0, 0, 0];
    assert(pb@ =~= row_start().pb);
    let mut x: usize = 0;
    while x < width
        invariant
            x <= width,
            width == image.width,
            w == width,
            h == image.height,
            y < image.height,
            image.wf(),
            image.width == old(image).width,
            image.height == old(image).height,
            scene_ok(scene_of(image, regions, capstones), w, h),
            binds_kept(views(old(capstones)@), views(capstones@)),
            last_color == 0 || last_color == 1,
            0 <= run_length <= x,
            0 <= run_count <= x,
            runs_ok(pb@),
            goal == spec_finder_row(
                scene_of(image, regions, capstones),
                RowState {
                    last_color: last_color as int,
                    run_length: run_length as int,
                    run_count: run_count as int,
                    pb: pb@,
                },
                w,
                h,
                x as int,
                y as int,
            ),
        decreases width - x,
    {
        let pixel: Pixel = image.get(x, y);
        let color: i32 = if pixel != 0 {
            1
        } else {
            0
        };
        if x != 0 && color != last_color {
            let ghost old_pb = pb@;
            pb = [pb[1], pb[2], pb[3], pb[4], run_length];
            assert(pb@ =~= shifted(old_pb, run_length as int));
            run_length = 0;
            run_count += 1;
            if color == 0 && run_count >= 5 {
                let avg: i32 = (pb[0] + pb[1] + pb[3] + pb[4]) / 4;
                let err: i32 = avg * 3 / 4;
                let ok: bool = avg - err <= pb[0] && pb[0] <= avg + err && avg - err <= pb[1]
                    && pb[1] <= avg + err && 3 * avg - err <= pb[2] && pb[2] <= 3 * avg + err
                    && avg - err <= pb[3] && pb[3] <= avg + err && avg - err <= pb[4] && pb[4]
                    <= avg + err;
                if ok {
                    let ghost seen = views(capstones@);
                    test_capstone(image, regions, capstones, x as i32, y, &pb);
                    proof {
                        let now = views(capstones@);
                        assert forall|i: int| 0 <= i < now.len() implies (#[trigger] now[i]).qr_grid
                            == -1 || (i < old(capstones)@.len() && now[i].qr_grid == views(
                            old(capstones)@,
                        )[i].qr_grid) by {
                            if i < seen.len() {
                                assert(seen[i].qr_grid == -1 || (i < old(capstones)@.len()
                                    && seen[i].qr_grid == views(old(capstones)@)[i].qr_grid));
                            }
                        }
                    }
                }
            }
        }
        run_length += 1;
        last_color = color;
        x += 1;
    }
}


/// A candidate symbol, as far as whole numbers tell of it: its three
/// capstones (A, B and C, with B at the corner of the symbol), the point of
/// the alignment pattern and the region of that pattern if one is found,
/// the end points of the timing patterns, the counts of the two timing
/// scans, and the number of cells along a side.
#[derive(Debug, Copy, Clone)]
pub struct Grid {
    pub caps: [usize; 3],
    pub align_region: Option<Pixel>,
    pub align: Point,
    pub tpep: [Point; 3],
    pub hscan: i32,
    pub vscan: i32,
    pub grid_size: i32,
}

/// The mathematical content of a [`Grid`].
pub struct GridView {
    pub caps: Seq<usize>,
    pub align_region: Option<Pixel>,
    pub align: Point,
    pub tpep: Seq<Point>,
    pub hscan: int,
    pub vscan: int,
    pub grid_size: int,
}

impl View for Grid {
    type V = GridView;

    open spec fn view(&self) -> GridView {
        GridView {
            caps: self.caps@,
            align_region: self.align_region,
            align: self.align,
            tpep: self.tpep@,
            hscan: self.hscan as int,
            vscan: self.vscan as int,
            grid_size: self.grid_size as int,
        }
    }
}

/// The grid of which nothing is known yet, but for its capstones.
pub open spec fn blank_grid(caps: Seq<usize>) -> GridView {
    GridView {
        caps,
        align_region: None,
        align: Point { x: 0, y: 0 },
        tpep: seq![Point { x: 0, y: 0 }, Point { x: 0, y: 0 }, Point { x: 0, y: 0 }],
        hscan: 0,
        vscan: 0,
        grid_size: 0,
    }
}

impl Default for Grid {
    fn default() -> (g: Grid)
        ensures
            g@ == blank_grid(seq![0usize, 0usize, 0usize]),
    {
        let g = Grid {
            caps: [0, 0, 0],
            align_region: None,
            align: Point { x: 0, y: 0 },
            tpep: [Point { x: 0, y: 0 }, Point { x: 0, y: 0 }, Point { x: 0, y: 0 }],
            hscan: 0,
            vscan: 0,
            grid_size: 0,
        };
        assert(g.caps@ =~= seq![0usize, 0usize, 0usize]);
        assert(g.tpep@ =~= blank_grid(g.caps@).tpep);
        g
    }
}

/// How far the point `p` lies to the right of the line from `h0` in the
/// direction `hd`; the less, the farther to the left.
pub open spec fn side_of_line(p: Point, h0: Point, hd: Point) -> int {
    (p.x - h0.x) * -hd.y + (p.y - h0.y) * hd.x
}

/// The index of the first among the first `n` corners that lies farthest
/// to the left of the line.
pub open spec fn leftmost_index(corners: Seq<Point>, h0: Point, hd: Point, n: int) -> int
    decreases n,
{
    if n <= 1 {
        0
    } else {
        let best = leftmost_index(corners, h0, hd, n - 1);
        if side_of_line(corners[n - 1], h0, hd) < side_of_line(corners[best], h0, hd) {
            n - 1
        } else {
            best
        }
    }
}

/// The four corners, in their cyclic order, from the corner `best` on.
pub open spec fn rotated(corners: Seq<Point>, best: int) -> Seq<Point> {
    Seq::new(4, |i: int| corners[(i + best) % 4])
}

/// Computes how far `p` lies to the right of the line.
fn side(p: &Point, h0: &Point, hd: &Point) -> (s: i128)
    ensures
        s == side_of_line(*p, *h0, *hd),
{
    let dx: i128 = p.x as i128 - h0.x as i128;
    let dy: i128 = p.y as i128 - h0.y as i128;
    let nx: i128 = -(hd.y as i128);
    let ny: i128 = hd.x as i128;
    assert(-0x2_0000_0000_0000_0000 <= dx * nx <= 0x2_0000_0000_0000_0000) by (nonlinear_arith)
        requires
            -0x1_0000_0000 <= dx <= 0x1_0000_0000,
            -0x1_0000_0000 <= nx <= 0x1_0000_0000,
    ;
    assert(-0x2_0000_0000_0000_0000 <= dy * ny <= 0x2_0000_0000_0000_0000) by (nonlinear_arith)
        requires
            -0x1_0000_0000 <= dy <= 0x1_0000_0000,
            -0x1_0000_0000 <= ny <= 0x1_0000_0000,
    ;
    dx * nx + dy * ny
}

/// Turns the corners of the capstone so that the first is the one
/// farthest to the left of the line from `h0` in the direction `hd`.
pub fn rotate_capstone(cap: &mut Capstone, h0: &Point, hd: &Point)
    ensures
        final(cap)@ == (CapstoneView {
            corners: rotated(
                old(cap).corners@,
                leftmost_index(old(cap).corners@, *h0, *hd, 4),
            ),
            ..old(cap)@
        }),
{
    let ghost before = cap.corners@;
    let mut best: usize = 0;
    let mut best_score: i128 = side(&cap.corners[0], h0, hd);
    let mut j: usize = 1;
    while j < 4
        invariant
            1 <= j <= 4,
            best < j,
            cap.corners@ == before,
            best == leftmost_index(before, *h0, *hd, j as int),
            best_score == side_of_line(before[best as int], *h0, *hd),
        decreases 4 - j,
    {
        let score: i128 = side(&cap.corners[j], h0, hd);
        if score < best_score {
            best = j;
            best_score = score;
        }
        j += 1;
    }
    let copy: [Point; 4] = [
        cap.corners[best % 4],
        cap.corners[(1 + best) % 4],
        cap.corners[(2 + best) % 4],
        cap.corners[(3 + best) % 4],
    ];
    cap.corners = copy;
    assert(cap.corners@ =~= rotated(before, best as int));
}

/// The number of cells along a side of the grid whose longer timing scan
/// counts `scan` transitions: the nearest size that a version has.
pub open spec fn spec_grid_size(scan: int) -> int {
    trunc_div(scan * 2 + 13 - 15, 4) * 4 + 17
}

/// The greater of two numbers.
pub open spec fn max_of(a: int, b: int) -> int {
    if a >= b {
        a
    } else {
        b
    }
}

/// Scans the two timing patterns of the grid, between the end points that
/// `qr.tpep` holds, and sets the size of the grid by the greater count.
/// Returns 0, or -1 where neither scan stays within the frame, and then
/// leaves the size as it was.
pub fn measure_timing_pattern(qr: &mut Grid, image: &Image) -> (r: i32)
    requires
        image.wf(),
    ensures
        ({
            let hscan = spec_timing_scan(image, old(qr).tpep@[1], old(qr).tpep@[2]);
            let vscan = spec_timing_scan(image, old(qr).tpep@[1], old(qr).tpep@[0]);
            let scan = max_of(hscan, vscan);
            &&& r == if scan < 0 { -1i32 } else { 0i32 }
            &&& final(qr)@ == (GridView {
                hscan,
                vscan,
                grid_size: if scan < 0 {
                    old(qr).grid_size as int
                } else {
                    spec_grid_size(scan)
                },
                ..old(qr)@
            })
        }),
{
    qr.hscan = timing_scan(image, &qr.tpep[1], &qr.tpep[2]);
    qr.vscan = timing_scan(image, &qr.tpep[1], &qr.tpep[0]);
    let mut scan: i32 = qr.hscan;
    if qr.vscan > scan {
        scan = qr.vscan;
    }
    if scan < 0 {
        return -1;
    }
    let size: i32 = scan * 2 + 13;
    let ver: i32 = if size >= 15 {
        (size - 15) / 4
    } else {
        0
    };
    qr.grid_size = ver * 4 + 17;
    0
}

/// Writes to `image` the frame `source` made black and white: a sample
/// below the threshold becomes foreground, any other background. Where the
/// two differ in length, the pixels or the samples past the shorter are
/// left alone.
pub fn pixels_setup(image: &mut Image, source: &[u8], threshold: u8)
    ensures
        final(image).width == old(image).width,
        final(image).height == old(image).height,
        final(image).pixels@.len() == old(image).pixels@.len(),
        forall|k: int|
            0 <= k < old(image).pixels@.len() ==> #[trigger] final(image).pixels@[k] == if k
                < source@.len() {
                if source@[k] < threshold {
                    1 as Pixel
                } else {
                    0 as Pixel
                }
            } else {
                old(image).pixels@[k]
            },
{
    let n: usize = if source.len() < image.pixels.len() {
        source.len()
    } else {
        image.pixels.len()
    };
    let mut k: usize = 0;
    while k < n
        invariant
            k <= n,
            n <= source@.len(),
            n <= image.pixels@.len(),
            image.width == old(image).width,
            image.height == old(image).height,
            image.pixels@.len() == old(image).pixels@.len(),
            forall|q: int|
                0 <= q < image.pixels@.len() ==> #[trigger] image.pixels@[q] == if q < k {
                    if source@[q] < threshold {
                        1 as Pixel
                    } else {
                        0 as Pixel
                    }
                } else {
                    old(image).pixels@[q]
                },
        decreases n - k,
    {
        image.pixels[k] = if source[k] < threshold {
            1
        } else {
            0
        };
        k += 1;
    }
}


/// What the search for an alignment pattern leaves: the pixels and the
/// regions, and the region found, if any.
pub struct Spiral {
    pub pixels: Seq<Pixel>,
    pub regions: Seq<Region>,
    pub found: Option<Pixel>,
}

/// The step along x of the walk in the direction `dir`.
pub open spec fn spiral_dx(dir: int) -> int {
    if dir == 0 {
        1
    } else if dir == 2 {
        -1
    } else {
        0
    }
}

/// The step along y of the walk in the direction `dir`.
pub open spec fn spiral_dy(dir: int) -> int {
    if dir == 1 {
        -1
    } else if dir == 3 {
        1
    } else {
        0
    }
}

/// Has the region about the size of the estimate: from half of it to
/// twice?
pub open spec fn is_about(count: int, estimate: int) -> bool {
    estimate / 2 <= count <= estimate * 2
}

/// What the search leaves that stands at `(bx, by)`, `k` steps into a
/// stretch of `step_size` steps in the direction `dir`: it looks up the
/// region of each pixel it comes to, making one for unclaimed foreground,
/// and ends at the first region of about the size of the estimate. From
/// the start it walks outwards in a spiral: a stretch to the right, one
/// up, then stretches one step longer to the left and down, and so on. It
/// gives up once the square of the length of a stretch reaches a hundred
/// times the estimate.
pub open spec fn spec_spiral(
    pixels: Seq<Pixel>,
    regions: Seq<Region>,
    w: int,
    h: int,
    bx: int,
    by: int,
    step_size: int,
    dir: int,
    k: int,
    estimate: int,
) -> Spiral
    decreases 100 * estimate + 1 - step_size, 4 - dir, step_size - k,
    via lemma_spiral_ends
{
    if step_size < 1 || !(0 <= dir < 4) || step_size * step_size >= estimate * 100 {
        Spiral { pixels, regions, found: None }
    } else if k >= step_size {
        let next = (dir + 1) % 4;
        spec_spiral(
            pixels,
            regions,
            w,
            h,
            bx,
            by,
            if next % 2 == 0 {
                step_size + 1
            } else {
                step_size
            },
            next,
            0,
            estimate,
        )
    } else {
        let coded = spec_region_code(pixels, regions, w, h, bx, by);
        if coded.code >= 0 && is_about(coded.regions[coded.code].count as int, estimate) {
            Spiral { pixels: coded.pixels, regions: coded.regions, found: Some(coded.code as Pixel) }
        } else {
            spec_spiral(
                coded.pixels,
                coded.regions,
                w,
                h,
                bx + spiral_dx(dir),
                by + spiral_dy(dir),
                step_size,
                dir,
                k + 1,
                estimate,
            )
        }
    }
}

/// The stretches grow no longer than a hundred times the estimate, so the
/// search ends.
#[via_fn]
proof fn lemma_spiral_ends(
    pixels: Seq<Pixel>,
    regions: Seq<Region>,
    w: int,
    h: int,
    bx: int,
    by: int,
    step_size: int,
    dir: int,
    k: int,
    estimate: int,
) {
    if !(step_size < 1 || !(0 <= dir < 4) || step_size * step_size >= estimate * 100) {
        assert(step_size + 1 <= 100 * estimate + 1) by (nonlinear_arith)
            requires
                step_size >= 1,
                step_size * step_size < estimate * 100,
        ;
    }
}

/// The number of steps of the spiral before the stretch of `s` steps in
/// the direction `dir`.
#[verifier::opaque]
spec fn spiral_moves(s: int, dir: int) -> int {
    s * (s - 1) + if dir % 2 == 1 {
        s
    } else {
        0
    }
}

/// How the number of steps grows from one stretch to the next, and that
/// it stays within bounds as long as the search goes on.
proof fn lemma_spiral_moves(s: int, dir: int, estimate: int)
    requires
        1 <= s,
        0 <= dir < 4,
        s * s < estimate * 100,
        estimate <= i32::MAX,
    ensures
        spiral_moves(1, 0) == 0,
        0 <= spiral_moves(s, dir),
        spiral_moves(s, dir) + s <= 0x100_0000_0000,
        s <= 0x8_0000,
        s < 100 * estimate,
        dir == 0 ==> spiral_moves(s, 1) == spiral_moves(s, dir) + s,
        dir == 1 ==> spiral_moves(s + 1, 2) == spiral_moves(s, dir) + s,
        dir == 2 ==> spiral_moves(s, 3) == spiral_moves(s, dir) + s,
        dir == 3 ==> spiral_moves(s + 1, 0) == spiral_moves(s, dir) + s,
{
    reveal(spiral_moves);
    assert(s <= 0x8_0000) by (nonlinear_arith)
        requires
            1 <= s,
            s * s < estimate * 100,
            estimate <= 0x7fff_ffff,
    ;
    assert(0 <= s * (s - 1) && s * (s - 1) + s + s <= 0x100_0000_0000) by (nonlinear_arith)
        requires
            1 <= s <= 0x8_0000,
    ;
    assert((s + 1) * (s + 1 - 1) == s * (s - 1) + s + s) by (nonlinear_arith);
    assert(s < 100 * estimate) by (nonlinear_arith)
        requires
            1 <= s,
            s * s < estimate * 100,
    ;
}

/// The square of the length of a stretch.
fn stretch_square(s: i32) -> (r: i64)
    requires
        1 <= s <= 0x8_0001,
    ensures
        r == s * s,
{
    assert(0 <= s * s <= 0x8_0001 * 0x8_0001) by (nonlinear_arith)
        requires
            1 <= s <= 0x8_0001,
    ;
    (s as i64) * (s as i64)
}

/// Are the regions `after` those of `before` and, past them, regions that
/// no capstone owns?
pub open spec fn regions_grown(before: Seq<Region>, after: Seq<Region>) -> bool {
    &&& before.len() <= after.len()
    &&& forall|k: int| 0 <= k < before.len() ==> #[trigger] after[k] == before[k]
    &&& forall|k: int| before.len() <= k < after.len() ==> (#[trigger] after[k]).capstone == -1
}

/// Looks up the region of the pixel at `(bx, by)`, which may lie anywhere.
fn region_code_at(image: &mut Image, regions: &mut Vec<Region>, bx: i64, by: i64) -> (code: i32)
    requires
        old(image).wf(),
        regions_ok(old(regions)@, old(image).width as int, old(image).height as int),
        pixels_ok(old(image).pixels@, old(regions)@.len() as int),
    ensures
        final(image).wf(),
        final(image).width == old(image).width,
        final(image).height == old(image).height,
        regions_ok(final(regions)@, old(image).width as int, old(image).height as int),
        pixels_ok(final(image).pixels@, final(regions)@.len() as int),
        (Coded { code: code as int, pixels: final(image).pixels@, regions: final(regions)@ })
            == spec_region_code(
            old(image).pixels@,
            old(regions)@,
            old(image).width as int,
            old(image).height as int,
            bx as int,
            by as int,
        ),
        code == -1 || 2 <= code < final(regions)@.len(),
        regions_grown(old(regions)@, final(regions)@),
{
    if bx < 0 || bx > 0x7fff || by < 0 || by > 0x7fff {
        return -1;
    }
    region_code(image, regions, bx as i32, by as usize)
}

/// Searches for the alignment pattern of the grid around the point
/// `qr.align`, in a spiral, for a region of about `size_estimate` pixels,
/// and writes the region it finds to `qr.align_region`.
pub fn find_alignment_pattern(
    image: &mut Image,
    regions: &mut Vec<Region>,
    qr: &mut Grid,
    size_estimate: i32,
)
    requires
        old(image).wf(),
        regions_ok(old(regions)@, old(image).width as int, old(image).height as int),
        pixels_ok(old(image).pixels@, old(regions)@.len() as int),
    ensures
        final(image).wf(),
        final(image).width == old(image).width,
        final(image).height == old(image).height,
        regions_ok(final(regions)@, old(image).width as int, old(image).height as int),
        pixels_ok(final(image).pixels@, final(regions)@.len() as int),
        ({
            let sp = spec_spiral(
                old(image).pixels@,
                old(regions)@,
                old(image).width as int,
                old(image).height as int,
                old(qr).align.x as int,
                old(qr).align.y as int,
                1,
                0,
                0,
                size_estimate as int,
            );
            &&& final(image).pixels@ == sp.pixels
            &&& final(regions)@ == sp.regions
            &&& final(qr)@ == (GridView {
                align_region: if sp.found is Some {
                    sp.found
                } else {
                    old(qr).align_region
                },
                ..old(qr)@
            })
            &&& sp.found is Some ==> 2 <= sp.found->0 < sp.regions.len()
        }),
        regions_grown(old(regions)@, final(regions)@),
{
    let ghost w = image.width as int;
    let ghost h = image.height as int;
    let ghost estimate = size_estimate as int;
    let ghost x0 = qr.align.x as int;
    let ghost y0 = qr.align.y as int;
    let ghost goal = spec_spiral(image.pixels@, regions@, w, h, x0, y0, 1, 0, 0, estimate);
    let mut bx: i64 = qr.align.x as i64;
    let mut by: i64 = qr.align.y as i64;
    let mut step_size: i32 = 1;
    let mut dir: i32 = 0;
    proof {
        reveal(spiral_moves);
    }
    while stretch_square(step_size) < (size_estimate as i64) * 100
        invariant
            image.wf(),
            image.width == old(image).width,
            image.height == old(image).height,
            w == image.width,
            h == image.height,
            estimate == size_estimate,
            regions_ok(regions@, w, h),
            pixels_ok(image.pixels@, regions@.len() as int),
            regions_grown(old(regions)@, regions@),
            *qr == *old(qr),
            1 <= step_size <= 0x8_0001,
            0 <= dir < 4,
            -0x8000_0000 - spiral_moves(step_size as int, dir as int) <= bx <= 0x8000_0000
                + spiral_moves(step_size as int, dir as int),
            -0x8000_0000 - spiral_moves(step_size as int, dir as int) <= by <= 0x8000_0000
                + spiral_moves(step_size as int, dir as int),
            0 <= spiral_moves(step_size as int, dir as int) <= 0x100_0000_0000,
            goal == spec_spiral(
                old(image).pixels@,
                old(regions)@,
                old(image).width as int,
                old(image).height as int,
                old(qr).align.x as int,
                old(qr).align.y as int,
                1,
                0,
                0,
                size_estimate as int,
            ),
            goal == spec_spiral(
                image.pixels@,
                regions@,
                w,
                h,
                bx as int,
                by as int,
                step_size as int,
                dir as int,
                0,
                estimate,
            ),
        decreases 100 * estimate + 1 - step_size, 4 - dir,
    {
        proof {
            lemma_spiral_moves(step_size as int, dir as int, estimate);
        }
        let ghost moves = spiral_moves(step_size as int, dir as int);
        let mut k: i32 = 0;
        while k < step_size
            invariant
                image.wf(),
                image.width == old(image).width,
                image.height == old(image).height,
                w == image.width,
                h == image.height,
                estimate == size_estimate,
                regions_ok(regions@, w, h),
                pixels_ok(image.pixels@, regions@.len() as int),
                regions_grown(old(regions)@, regions@),
                *qr == *old(qr),
                1 <= step_size <= 0x8_0000,
                0 <= dir < 4,
                0 <= k <= step_size,
                step_size * step_size < estimate * 100,
                0 <= moves,
                moves + step_size <= 0x100_0000_0000,
                -0x8000_0000 - moves - k <= bx <= 0x8000_0000 + moves + k,
                -0x8000_0000 - moves - k <= by <= 0x8000_0000 + moves + k,
                goal == spec_spiral(
                    old(image).pixels@,
                    old(regions)@,
                    old(image).width as int,
                    old(image).height as int,
                    old(qr).align.x as int,
                    old(qr).align.y as int,
                    1,
                    0,
                    0,
                    size_estimate as int,
                ),
                goal == spec_spiral(
                    image.pixels@,
                    regions@,
                    w,
                    h,
                    bx as int,
                    by as int,
                    step_size as int,
                    dir as int,
                    k as int,
                    estimate,
                ),
            decreases step_size - k,
        {
            let ghost seen = regions@;
            let code: i32 = region_code_at(image, regions, bx, by);
            proof {
                assert forall|k: int| 0 <= k < old(regions)@.len() implies #[trigger] regions@[k]
                    == old(regions)@[k] by {
                    assert(seen[k] == old(regions)@[k]);
                }
                assert forall|k: int| old(regions)@.len() <= k < regions@.len() implies (
                #[trigger] regions@[k]).capstone == -1 by {
                    if k < seen.len() {
                        assert(seen[k].capstone == -1);
                    }
                }
            }
            if code >= 0 {
                let reg: Region = regions[code as usize];
                if reg.count as i64 >= (size_estimate / 2) as i64 && reg.count as i64 <= (
                size_estimate as i64) * 2 {
                    qr.align_region = Some(code as Pixel);
                    return ;
                }
            }
            if dir == 0 {
                bx += 1;
            } else if dir == 1 {
                by -= 1;
            } else if dir == 2 {
                bx -= 1;
            } else {
                by += 1;
            }
            k += 1;
        }
        dir = (dir + 1) % 4;
        if dir % 2 == 0 {
            step_size += 1;
        }
    }
}


/// The content of each of the grids.
pub open spec fn grid_views(grids: Seq<Grid>) -> Seq<GridView> {
    Seq::new(grids.len(), |k: int| grids[k]@)
}

/// Is every capstone that is bound to a grid one of the three capstones
/// of that grid, and is every capstone of a grid there?
pub open spec fn binds_ok(capstones: Seq<CapstoneView>, grids: Seq<GridView>) -> bool {
    &&& grids.len() <= MAX_GRIDS
    &&& forall|i: int|
        0 <= i < capstones.len() && (#[trigger] capstones[i]).qr_grid >= 0 ==> {
            &&& capstones[i].qr_grid < grids.len()
            &&& (grids[capstones[i].qr_grid].caps[0] == i || grids[capstones[i].qr_grid].caps[1]
                == i || grids[capstones[i].qr_grid].caps[2] == i)
        }
    &&& forall|g: int, j: int|
        0 <= g < grids.len() && 0 <= j < 3 ==> (#[trigger] grids[g].caps[j]) < capstones.len()
            && grids[g].caps.len() == 3
}

/// A difference of two centres that fits a coordinate.
pub open spec fn centres_apart(a: Point, c: Point) -> bool {
    i32::MIN < c.x - a.x <= i32::MAX && i32::MIN < c.y - a.y <= i32::MAX
}

/// Must the capstones A and C change places, so that A, B and C go round
/// clockwise? They must where the centre of B lies to the right of the
/// line from A to C.
pub open spec fn needs_swap(a: Point, b: Point, c: Point) -> bool {
    side_of_line(b, a, Point { x: (c.x - a.x) as i32, y: (c.y - a.y) as i32 }) > 0
}

/// The direction of the hypotenuse of the grid: from the capstone that is
/// A in the end to the one that is C.
pub open spec fn hypotenuse(a: Point, b: Point, c: Point) -> Point {
    if needs_swap(a, b, c) {
        Point { x: (a.x - c.x) as i32, y: (a.y - c.y) as i32 }
    } else {
        Point { x: (c.x - a.x) as i32, y: (c.y - a.y) as i32 }
    }
}

/// The capstone bound to the grid `grid`, with its corners turned so that
/// the first is the one farthest to the left of the hypotenuse.
pub open spec fn bound_to(cap: CapstoneView, h0: Point, hd: Point, grid: int) -> CapstoneView {
    CapstoneView {
        corners: rotated(cap.corners, leftmost_index(cap.corners, h0, hd, 4)),
        qr_grid: grid,
        ..cap
    }
}

/// The capstones once those at `a`, `b` and `c` are bound, in this order,
/// to the grid `grid`.
pub open spec fn bound_all(
    caps: Seq<CapstoneView>,
    a: int,
    b: int,
    c: int,
    h0: Point,
    hd: Point,
    grid: int,
) -> Seq<CapstoneView> {
    let s1 = caps.update(a, bound_to(caps[a], h0, hd, grid));
    let s2 = s1.update(b, bound_to(s1[b], h0, hd, grid));
    s2.update(c, bound_to(s2[c], h0, hd, grid))
}

/// Binds the capstone at `index` to the grid `grid`.
fn bind_capstone(capstones: &mut Vec<Capstone>, index: usize, h0: &Point, hd: &Point, grid: i32)
    requires
        index < old(capstones)@.len(),
    ensures
        final(capstones)@.len() == old(capstones)@.len(),
        views(final(capstones)@) == views(old(capstones)@).update(
            index as int,
            bound_to(old(capstones)@[index as int]@, *h0, *hd, grid as int),
        ),
{
    let mut cap: Capstone = capstones[index];
    rotate_capstone(&mut cap, h0, hd);
    cap.qr_grid = grid;
    capstones[index] = cap;
    assert(views(capstones@) =~= views(old(capstones)@).update(
        index as int,
        bound_to(old(capstones)@[index as int]@, *h0, *hd, grid as int),
    ));
}

/// Opens a grid for the capstones at `a`, `b` and `c`, of which `b` lies at
/// the corner of the symbol: `a` and `c` change places if need be, so that
/// the three go round clockwise; the grid is recorded; and each capstone
/// is bound to it, its corners turned so that the first is the one
/// farthest to the left of the hypotenuse. Returns the direction of the
/// hypotenuse, or `None` where there are [`MAX_GRIDS`] grids already, and
/// then nothing is recorded.
pub fn begin_qr_grid(
    capstones: &mut Vec<Capstone>,
    grids: &mut Vec<Grid>,
    a: usize,
    b: usize,
    c: usize,
) -> (hd: Option<Point>)
    requires
        a < old(capstones)@.len(),
        b < old(capstones)@.len(),
        c < old(capstones)@.len(),
        centres_apart(old(capstones)@[a as int].center, old(capstones)@[c as int].center),
        binds_ok(views(old(capstones)@), grid_views(old(grids)@)),
    ensures
        binds_ok(views(final(capstones)@), grid_views(final(grids)@)),
        final(capstones)@.len() == old(capstones)@.len(),
        old(grids)@.len() >= MAX_GRIDS ==> {
            &&& hd is None
            &&& final(grids)@ == old(grids)@
            &&& final(capstones)@ == old(capstones)@
        },
        old(grids)@.len() < MAX_GRIDS ==> ({
            let ca = old(capstones)@[a as int].center;
            let cb = old(capstones)@[b as int].center;
            let cc = old(capstones)@[c as int].center;
            let swap = needs_swap(ca, cb, cc);
            let first = if swap { c } else { a };
            let last = if swap { a } else { c };
            let dir = hypotenuse(ca, cb, cc);
            &&& hd == Some(dir)
            &&& final(grids)@.len() == old(grids)@.len() + 1
            &&& forall|g: int| 0 <= g < old(grids)@.len() ==> final(grids)@[g] == old(grids)@[g]
            &&& final(grids)@.last()@ == blank_grid(seq![first, b, last])
            &&& views(final(capstones)@) == bound_all(
                views(old(capstones)@),
                first as int,
                b as int,
                last as int,
                ca,
                dir,
                old(grids)@.len() as int,
            )
        }),
{
    if grids.len() >= MAX_GRIDS {
        return None;
    }
    let ghost caps0 = views(capstones@);
    let ghost grids0 = grid_views(grids@);
    let h0: Point = capstones[a].center;
    let mut hd = Point {
        x: capstones[c].center.x - capstones[a].center.x,
        y: capstones[c].center.y - capstones[a].center.y,
    };
    let mut first: usize = a;
    let mut last: usize = c;
    if side(&capstones[b].center, &h0, &hd) > 0 {
        first = c;
        last = a;
        hd.x = -hd.x;
        hd.y = -hd.y;
    }
    let qr_index: usize = grids.len();
    let mut qr = Grid::default();
    qr.caps = [first, b, last];
    qr.align_region = None;
    assert(qr.caps@ =~= seq![first, b, last]);
    grids.push(qr);
    bind_capstone(capstones, first, &h0, &hd, qr_index as i32);
    bind_capstone(capstones, b, &h0, &hd, qr_index as i32);
    bind_capstone(capstones, last, &h0, &hd, qr_index as i32);
    proof {
        let caps1 = views(capstones@);
        let grids1 = grid_views(grids@);
        assert(grids1.len() == grids0.len() + 1);
        assert forall|i: int| 0 <= i < caps1.len() && (#[trigger] caps1[i]).qr_grid >= 0 implies {
            &&& caps1[i].qr_grid < grids1.len()
            &&& (grids1[caps1[i].qr_grid].caps[0] == i || grids1[caps1[i].qr_grid].caps[1] == i
                || grids1[caps1[i].qr_grid].caps[2] == i)
        } by {
            if i == first || i == b || i == last {
                assert(caps1[i].qr_grid == qr_index);
                assert(grids1[qr_index as int].caps == seq![first, b, last]);
            } else {
                assert(caps1[i] == caps0[i]);
                assert(grids1[caps0[i].qr_grid] == grids0[caps0[i].qr_grid]);
            }
        }
        assert forall|g: int, j: int| 0 <= g < grids1.len() && 0 <= j < 3 implies (
        #[trigger] grids1[g].caps[j]) < caps1.len() && grids1[g].caps.len() == 3 by {
            if g < grids0.len() {
                assert(grids1[g] == grids0[g]);
                assert(grids0[g].caps[j] < caps0.len());
            }
        }
    }
    Some(hd)
}

/// Is the capstone at `i` one of the three capstones of the grid?
pub open spec fn is_cap_of(grid: GridView, i: int) -> bool {
    grid.caps[0] == i || grid.caps[1] == i || grid.caps[2] == i
}

/// Drops the grid that was opened last: its capstones are unbound and the
/// grid is taken off the list.
pub fn abandon_qr_grid(capstones: &mut Vec<Capstone>, grids: &mut Vec<Grid>)
    requires
        old(grids)@.len() >= 1,
        binds_ok(views(old(capstones)@), grid_views(old(grids)@)),
    ensures
        binds_ok(views(final(capstones)@), grid_views(final(grids)@)),
        final(grids)@ == old(grids)@.drop_last(),
        final(capstones)@.len() == old(capstones)@.len(),
        forall|i: int|
            0 <= i < old(capstones)@.len() ==> (#[trigger] final(capstones)@[i])@ == if is_cap_of(
                old(grids)@.last()@,
                i,
            ) {
                CapstoneView { qr_grid: -1, ..old(capstones)@[i]@ }
            } else {
                old(capstones)@[i]@
            },
{
    let ghost caps0 = views(capstones@);
    let ghost grids0 = grid_views(grids@);
    let last: usize = grids.len() - 1;
    let qr: Grid = grids[last];
    assert(grids0[last as int].caps[0] < caps0.len() && grids0[last as int].caps[1] < caps0.len()
        && grids0[last as int].caps[2] < caps0.len());
    let mut j: usize = 0;
    while j < 3
        invariant
            j <= 3,
            qr == old(grids)@[last as int],
            last == old(grids)@.len() - 1,
            capstones@.len() == old(capstones)@.len(),
            forall|q: int| 0 <= q < 3 ==> qr.caps@[q] < capstones@.len(),
            forall|i: int|
                0 <= i < capstones@.len() ==> (#[trigger] capstones@[i])@ == if (exists|q: int|
                    0 <= q < j && qr.caps@[q] == i) {
                    CapstoneView { qr_grid: -1, ..old(capstones)@[i]@ }
                } else {
                    old(capstones)@[i]@
                },
        decreases 3 - j,
    {
        let index: usize = qr.caps[j];
        let mut cap: Capstone = capstones[index];
        cap.qr_grid = -1;
        capstones[index] = cap;
        proof {
            assert forall|i: int| 0 <= i < capstones@.len() implies (#[trigger] capstones@[i])@
                == if (exists|q: int| 0 <= q < j + 1 && qr.caps@[q] == i) {
                CapstoneView { qr_grid: -1, ..old(capstones)@[i]@ }
            } else {
                old(capstones)@[i]@
            } by {
                if i == index {
                    assert(qr.caps@[j as int] == i);
                } else if exists|q: int| 0 <= q < j + 1 && qr.caps@[q] == i {
                    let q = choose|q: int| 0 <= q < j + 1 && qr.caps@[q] == i;
                    assert(q < j);
                }
            }
        }
        j += 1;
    }
    grids.pop();
    proof {
        let caps1 = views(capstones@);
        let grids1 = grid_views(grids@);
        assert(grids@ =~= old(grids)@.drop_last());
        assert forall|i: int| 0 <= i < caps1.len() implies (#[trigger] capstones@[i])@
            == if is_cap_of(old(grids)@.last()@, i) {
            CapstoneView { qr_grid: -1, ..old(capstones)@[i]@ }
        } else {
            old(capstones)@[i]@
        } by {
            if is_cap_of(old(grids)@.last()@, i) {
                let q = if qr.caps@[0] == i {
                    0int
                } else if qr.caps@[1] == i {
                    1int
                } else {
                    2int
                };
                assert(qr.caps@[q] == i);
            } else if exists|q: int| 0 <= q < 3 && qr.caps@[q] == i {
                let q = choose|q: int| 0 <= q < 3 && qr.caps@[q] == i;
            }
        }
        assert forall|i: int| 0 <= i < caps1.len() && (#[trigger] caps1[i]).qr_grid >= 0 implies {
            &&& caps1[i].qr_grid < grids1.len()
            &&& (grids1[caps1[i].qr_grid].caps[0] == i || grids1[caps1[i].qr_grid].caps[1] == i
                || grids1[caps1[i].qr_grid].caps[2] == i)
        } by {
            assert(caps1[i] == capstones@[i]@);
            assert(caps0[i] == old(capstones)@[i]@);
            assert(caps0[i].qr_grid >= 0);
            assert(grids0[last as int] == old(grids)@.last()@);
            assert(caps0[i].qr_grid != last);
            assert(grids1[caps1[i].qr_grid] == grids0[caps1[i].qr_grid]);
        }
        assert forall|g: int, q: int| 0 <= g < grids1.len() && 0 <= q < 3 implies (
        #[trigger] grids1[g].caps[q]) < caps1.len() && grids1[g].caps.len() == 3 by {
            assert(grids1[g] == grids0[g]);
            assert(grids0[g].caps[q] < caps0.len());
        }
    }
}

/// The data with which the search for the corner of the alignment pattern
/// starts: the reference is the direction of the hypotenuse, and corner 0
/// is the seed of the region.
pub open spec fn align_search(seed: Point, hd: Point) -> PolygonView {
    PolygonView {
        ref_0: hd,
        scores: seq![(-hd.y * seed.x + hd.x * seed.y) as i32, 0i32, 0i32, 0i32],
        corners: seq![seed, Point { x: 0, y: 0 }, Point { x: 0, y: 0 }, Point { x: 0, y: 0 }],
    }
}

/// What the search for the corner of the alignment pattern leaves: the
/// region is filled into unclaimed foreground and then back into its own
/// colour, and the second fill finds the pixel of it that lies farthest to
/// the left of the hypotenuse.
pub open spec fn spec_align_corner(
    pixels: Seq<Pixel>,
    w: int,
    h: int,
    region: Region,
    rcode: Pixel,
    hd: Point,
) -> Fill {
    let first = spec_flood_fill(
        Fill { pixels, user: UserView::Empty },
        w,
        h,
        region.seed.x as int,
        region.seed.y as int,
        rcode,
        1,
        SpanFn::Nothing,
        0,
    );
    spec_flood_fill(
        Fill { pixels: first.pixels, user: UserView::Polygon(align_search(region.seed, hd)) },
        w,
        h,
        region.seed.x as int,
        region.seed.y as int,
        1,
        rcode,
        SpanFn::FindLeftmostToLine,
        0,
    )
}

/// Moves the point of the alignment pattern of the grid to the pixel of
/// the pattern's region that lies nearest the top-left corner of the
/// symbol: farthest to the left of the hypotenuse, whose direction is
/// `hd`.
pub fn locate_alignment_corner(image: &mut Image, regions: &Vec<Region>, qr: &mut Grid, hd: &Point)
    requires
        old(image).wf(),
        regions_ok(regions@, old(image).width as int, old(image).height as int),
        pixels_ok(old(image).pixels@, regions@.len() as int),
        old(qr).align_region is Some,
        2 <= old(qr).align_region->0 < regions@.len(),
        -32767 < hd.x < 32767,
        -32767 < hd.y < 32767,
    ensures
        final(image).wf(),
        final(image).width == old(image).width,
        final(image).height == old(image).height,
        pixels_ok(final(image).pixels@, regions@.len() as int),
        ({
            let rcode = old(qr).align_region->0;
            let found = spec_align_corner(
                old(image).pixels@,
                old(image).width as int,
                old(image).height as int,
                regions@[rcode as int],
                rcode,
                *hd,
            );
            &&& final(image).pixels@ == found.pixels
            &&& found.user is Polygon
            &&& final(qr)@ == (GridView { align: found.user->Polygon_0.corners[0], ..old(qr)@ })
        }),
{
    let rcode: Pixel = match qr.align_region {
        Some(r) => r,
        None => 0,
    };
    let reg: Region = regions[rcode as usize];
    let seed: Point = reg.seed;
    assert(0 <= regions@[rcode as int].seed.x < image.width);
    qr.align = seed;
    proof {
        assert(-0x3fff_0001 <= -hd.y * seed.x <= 0x3fff_0001) by (nonlinear_arith)
            requires
                -32767 < hd.y < 32767,
                0 <= seed.x < 32767,
        ;
        assert(-0x3fff_0001 <= hd.x * seed.y <= 0x3fff_0001) by (nonlinear_arith)
            requires
                -32767 < hd.x < 32767,
                0 <= seed.y < 32767,
        ;
    }
    let mut psd = PolygonScoreData {
        ref_0: *hd,
        scores: [0, 0, 0, 0],
        corners: [seed, Point { x: 0, y: 0 }, Point { x: 0, y: 0 }, Point { x: 0, y: 0 }],
    };
    psd.scores[0] = -hd.y * seed.x + hd.x * seed.y;
    assert(psd@ =~= align_search(seed, *hd)) by {
        assert(psd@.scores =~= align_search(seed, *hd).scores);
        assert(psd@.corners =~= align_search(seed, *hd).corners);
    }
    let ghost start = image.pixels@;
    let mut nothing = UserData::Empty;
    flood_fill_seed(image, seed.x, seed.y as usize, rcode, 1, SpanFn::Nothing, &mut nothing, 0);
    let ghost first = image.pixels@;
    let mut user = UserData::Polygon(psd);
    flood_fill_seed(image, seed.x, seed.y as usize, 1, rcode, SpanFn::FindLeftmostToLine, &mut user, 0);
    let psd = user.into_polygon();
    qr.align = psd.corners[0];
    proof {
        assert forall|k: int| 0 <= k < image.pixels@.len() implies (#[trigger] image.pixels@[k])
            < 2 || image.pixels@[k] < regions@.len() by {
            assert(first[k] == start[k] || first[k] == 1);
            assert(image.pixels@[k] == first[k] || image.pixels@[k] == rcode);
        }
    }
}


/// The crossing of the two sides of the capstones A and C of the grid that
/// point to the fourth corner of the symbol: of the side of A from its
/// first corner to its second, and of the side of C from its first corner
/// to its fourth.
pub open spec fn fourth_corner(capstones: Seq<Capstone>, grid: GridView) -> Option<Point> {
    let a = capstones[grid.caps[0] as int];
    let c = capstones[grid.caps[2] as int];
    spec_line_intersect(a.corners@[0], a.corners@[1], c.corners@[0], c.corners@[3])
}

/// The greater of the counts of the two timing scans of the grid.
pub open spec fn timing_count(image: &Image, grid: GridView) -> int {
    max_of(
        spec_timing_scan(image, grid.tpep[1], grid.tpep[2]),
        spec_timing_scan(image, grid.tpep[1], grid.tpep[0]),
    )
}

/// The grid once its timing patterns are measured and its fourth corner
/// is found.
pub open spec fn settled(image: &Image, capstones: Seq<Capstone>, grid: GridView) -> GridView {
    GridView {
        hscan: spec_timing_scan(image, grid.tpep[1], grid.tpep[2]),
        vscan: spec_timing_scan(image, grid.tpep[1], grid.tpep[0]),
        grid_size: spec_grid_size(timing_count(image, grid)),
        align: fourth_corner(capstones, grid)->0,
        ..grid
    }
}

/// Settles the grid that was opened last, whose timing end points are in
/// `tpep`: the timing patterns are scanned and give the size of the grid,
/// and the crossing of the sides of the capstones A and C gives a first
/// point for the alignment pattern. The grid is kept where a scan stays
/// within the frame and the sides cross; else it is dropped, as
/// [`abandon_qr_grid`] drops it.
pub fn settle_qr_grid(image: &Image, capstones: &mut Vec<Capstone>, grids: &mut Vec<Grid>) -> (kept:
    bool)
    requires
        image.wf(),
        old(grids)@.len() >= 1,
        binds_ok(views(old(capstones)@), grid_views(old(grids)@)),
    ensures
        binds_ok(views(final(capstones)@), grid_views(final(grids)@)),
        final(capstones)@.len() == old(capstones)@.len(),
        kept == (timing_count(image, old(grids)@.last()@) >= 0 && fourth_corner(
            old(capstones)@,
            old(grids)@.last()@,
        ) is Some),
        kept ==> {
            &&& final(capstones)@ == old(capstones)@
            &&& final(grids)@.len() == old(grids)@.len()
            &&& forall|g: int| 0 <= g < old(grids)@.len() - 1 ==> final(grids)@[g] == old(grids)@[g]
            &&& final(grids)@.last()@ == settled(image, old(capstones)@, old(grids)@.last()@)
        },
        !kept ==> {
            &&& final(grids)@ == old(grids)@.drop_last()
            &&& forall|i: int|
                0 <= i < old(capstones)@.len() ==> (#[trigger] final(capstones)@[i])@
                    == if is_cap_of(old(grids)@.last()@, i) {
                    CapstoneView { qr_grid: -1, ..old(capstones)@[i]@ }
                } else {
                    old(capstones)@[i]@
                }
        },
{
    let ghost caps0 = views(capstones@);
    let ghost grids0 = grid_views(grids@);
    let last: usize = grids.len() - 1;
    let mut qr: Grid = grids[last];
    assert(grids0[last as int] == qr@);
    assert(grids0[last as int].caps[0] < caps0.len() && grids0[last as int].caps[2] < caps0.len());
    if measure_timing_pattern(&mut qr, image) >= 0 {
        let a: Capstone = capstones[qr.caps[0]];
        let c: Capstone = capstones[qr.caps[2]];
        let mut align: Point = qr.align;
        if line_intersect(&a.corners[0], &a.corners[1], &c.corners[0], &c.corners[3], &mut align)
            != 0 {
            qr.align = align;
            grids[last] = qr;
            proof {
                let grids1 = grid_views(grids@);
                assert forall|i: int| 0 <= i < caps0.len() && (#[trigger] caps0[i]).qr_grid
                    >= 0 implies {
                    &&& caps0[i].qr_grid < grids1.len()
                    &&& (grids1[caps0[i].qr_grid].caps[0] == i || grids1[caps0[i].qr_grid].caps[1]
                        == i || grids1[caps0[i].qr_grid].caps[2] == i)
                } by {
                    assert(grids1[caps0[i].qr_grid].caps == grids0[caps0[i].qr_grid].caps);
                }
                assert forall|g: int, j: int| 0 <= g < grids1.len() && 0 <= j < 3 implies (
                #[trigger] grids1[g].caps[j]) < caps0.len() && grids1[g].caps.len() == 3 by {
                    assert(grids1[g].caps == grids0[g].caps);
                    assert(grids0[g].caps[j] < caps0.len());
                }
            }
            return true;
        }
    }
    abandon_qr_grid(capstones, grids);
    false
}

/// The size, in pixels, of the parallelogram that the points `a` and `c`
/// span at `b`: an estimate of the size of a cell of the grid, where `a`
/// and `c` lie one cell from `b` along the two sides of the grid.
pub open spec fn spec_size_estimate(a: Point, b: Point, c: Point) -> int {
    magnitude((a.x - b.x) * -(c.y - b.y) + (a.y - b.y) * (c.x - b.x))
}

/// Estimates the size of a cell of the grid from three points.
pub fn alignment_size_estimate(a: &Point, b: &Point, c: &Point) -> (e: i128)
    ensures
        e == spec_size_estimate(*a, *b, *c),
{
    let ax: i128 = a.x as i128 - b.x as i128;
    let ay: i128 = a.y as i128 - b.y as i128;
    let cx: i128 = c.x as i128 - b.x as i128;
    let cy: i128 = -(c.y as i128 - b.y as i128);
    assert(-0x1_0000_0000_0000_0000 <= ax * cy <= 0x1_0000_0000_0000_0000) by (nonlinear_arith)
        requires
            -0x1_0000_0000 <= ax <= 0x1_0000_0000,
            -0x1_0000_0000 <= cy <= 0x1_0000_0000,
    ;
    assert(-0x1_0000_0000_0000_0000 <= ay * cx <= 0x1_0000_0000_0000_0000) by (nonlinear_arith)
        requires
            -0x1_0000_0000 <= ay <= 0x1_0000_0000,
            -0x1_0000_0000 <= cx <= 0x1_0000_0000,
    ;
    let v: i128 = ax * cy + ay * cx;
    if v < 0 {
        -v
    } else {
        v
    }
}

/// What the search for the alignment pattern of a grid leaves: the pixels,
/// the regions and the grid.
pub struct Refined {
    pub pixels: Seq<Pixel>,
    pub regions: Seq<Region>,
    pub grid: GridView,
}

/// The grid with its alignment pattern looked for. A grid of version 1 has
/// none, and nothing is done. Else the pattern is searched for in a spiral
/// around the point of the grid, for a region of about the size of the
/// estimate; where one is found it becomes the alignment region of the
/// grid, and the point moves to the pixel of the region that lies nearest
/// the top-left corner of the symbol.
pub open spec fn spec_refine_alignment(
    pixels: Seq<Pixel>,
    regions: Seq<Region>,
    w: int,
    h: int,
    grid: GridView,
    hd: Point,
    estimate: int,
) -> Refined {
    if grid.grid_size <= 21 {
        Refined { pixels, regions, grid }
    } else {
        let sp = spec_spiral(pixels, regions, w, h, grid.align.x as int, grid.align.y as int, 1, 0, 0, estimate);
        match sp.found {
            None => Refined { pixels: sp.pixels, regions: sp.regions, grid },
            Some(rcode) => {
                let found = spec_align_corner(sp.pixels, w, h, sp.regions[rcode as int], rcode, hd);
                Refined {
                    pixels: found.pixels,
                    regions: sp.regions,
                    grid: GridView {
                        align_region: Some(rcode),
                        align: found.user->Polygon_0.corners[0],
                        ..grid
                    },
                }
            },
        }
    }
}

/// Looks for the alignment pattern of the grid and moves the point of the
/// grid to the corner of the pattern.
pub fn refine_alignment(
    image: &mut Image,
    regions: &mut Vec<Region>,
    qr: &mut Grid,
    hd: &Point,
    size_estimate: i32,
)
    requires
        old(image).wf(),
        regions_ok(old(regions)@, old(image).width as int, old(image).height as int),
        pixels_ok(old(image).pixels@, old(regions)@.len() as int),
        old(qr).align_region is None,
        -32767 < hd.x < 32767,
        -32767 < hd.y < 32767,
    ensures
        final(image).wf(),
        final(image).width == old(image).width,
        final(image).height == old(image).height,
        regions_ok(final(regions)@, old(image).width as int, old(image).height as int),
        pixels_ok(final(image).pixels@, final(regions)@.len() as int),
        regions_grown(old(regions)@, final(regions)@),
        (Refined { pixels: final(image).pixels@, regions: final(regions)@, grid: final(qr)@ })
            == spec_refine_alignment(
            old(image).pixels@,
            old(regions)@,
            old(image).width as int,
            old(image).height as int,
            old(qr)@,
            *hd,
            size_estimate as int,
        ),
{
    if qr.grid_size > 21 {
        find_alignment_pattern(image, regions, qr, size_estimate);
        if qr.align_region.is_some() {
            locate_alignment_corner(image, regions, qr, hd);
        }
    }
}

} // verus!
