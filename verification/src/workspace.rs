use crate::identify::{
    binds_kept, binds_ok, color_of, finder_scan, grid_views, pixels_setup, row_start, row_step, scene_of,
    scene_ok, spec_finder_row, spec_finder_scan, views, Capstone, Grid, RowState, Scene,
};
use crate::error::ExtractError;
use crate::image::{Image, MAX_DIMENSION};
use crate::quirc::{Pixel, Point, Region};
use vstd::prelude::*;

verus! {

/// The workspace of the identifier: the binarized frame and the regions,
/// capstones and grids found in it. The lists refer to one another by
/// index.
#[derive(Debug, Clone)]
pub struct Quirc {
    pub image: Image,
    pub regions: Vec<Region>,
    pub capstones: Vec<Capstone>,
    pub grids: Vec<Grid>,
}

/// The frame `source` made black and white: a sample below the threshold
/// is foreground, any other background.
pub open spec fn binarized(source: Seq<u8>, threshold: u8) -> Seq<Pixel> {
    Seq::new(
        source.len(),
        |k: int|
            if source[k] < threshold {
                1 as Pixel
            } else {
                0 as Pixel
            },
    )
}

/// The scene once the rows from `y` on are searched for capstones, one
/// row after another.
pub open spec fn spec_finder_rows(sc: Scene, w: int, h: int, y: int) -> Scene
    decreases h - y,
{
    if y >= h {
        sc
    } else {
        spec_finder_rows(spec_finder_scan(sc, w, h, y), w, h, y + 1)
    }
}

/// The region that stands at each of the first two places of the list of
/// regions, so that the index of no region is a colour of the binarized
/// frame.
pub open spec fn placeholder() -> Region {
    Region { seed: Point { x: 0, y: 0 }, count: 0, capstone: 0 }
}

/// The scene in which the search for capstones starts: the binarized
/// frame, the two placeholders, and no capstone.
pub open spec fn first_scene(source: Seq<u8>, threshold: u8) -> Scene {
    Scene {
        pixels: binarized(source, threshold),
        regions: seq![placeholder(), placeholder()],
        capstones: Seq::empty(),
    }
}

/// The scene that the search for capstones leaves of a frame of `w` by
/// `h` samples.
pub open spec fn spec_find_capstones(source: Seq<u8>, threshold: u8, w: int, h: int) -> Scene {
    spec_finder_rows(first_scene(source, threshold), w, h, 0)
}

/// Is a frame of this extent one that is searched for capstones?
pub open spec fn searchable(width: usize, height: usize) -> bool {
    width <= MAX_DIMENSION && height <= MAX_DIMENSION
}

impl Quirc {
    /// Does the frame fill its extent?
    pub open spec fn wf(&self) -> bool {
        self.image.wf()
    }

    /// Where the search for capstones stands.
    pub open spec fn scene(&self) -> Scene {
        scene_of(&self.image, &self.regions, &self.capstones)
    }

    /// Do the lists refer to one another rightly: is every pixel
    /// background, unclaimed foreground or the index of a region; does
    /// every region that a capstone owns name a capstone of which it is
    /// the ring or the stone; and is every capstone that is bound to a
    /// grid one of the capstones of that grid?
    pub open spec fn linked(&self) -> bool {
        &&& scene_ok(self.scene(), self.image.width as int, self.image.height as int)
        &&& binds_ok(views(self.capstones@), grid_views(self.grids@))
    }

    /// A workspace without a frame.
    pub fn new() -> (q: Quirc)
        ensures
            q.wf(),
            q.image.width == 0,
            q.image.height == 0,
            q.regions@.len() == 0,
            q.capstones@.len() == 0,
            q.grids@.len() == 0,
    {
        Quirc {
            image: Image { pixels: Vec::new(), width: 0, height: 0 },
            regions: Vec::new(),
            capstones: Vec::new(),
            grids: Vec::new(),
        }
    }

    /// Sets the extent of the frame. Where it changes, the pixels are cut
    /// off, or background is added to them, so that they fill it; the
    /// pixels that stay keep their places among the pixels.
    pub fn resize(&mut self, width: usize, height: usize)
        requires
            width * height <= usize::MAX,
        ensures
            final(self).image.width == width,
            final(self).image.height == height,
            final(self).regions == old(self).regions,
            final(self).capstones == old(self).capstones,
            final(self).grids == old(self).grids,
            old(self).image.width == width && old(self).image.height == height ==> final(self).image
                == old(self).image,
            old(self).image.width != width || old(self).image.height != height ==> {
                &&& final(self).image.pixels@.len() == width * height
                &&& forall|k: int|
                    0 <= k < width * height ==> #[trigger] final(self).image.pixels@[k] == if k
                        < old(self).image.pixels@.len() {
                        old(self).image.pixels@[k]
                    } else {
                        0 as Pixel
                    }
            },
    {
        if self.image.width == width && self.image.height == height {
            return ;
        }
        let newdim: usize = width * height;
        let ghost before = self.image.pixels@;
        self.image.pixels.resize(newdim, 0);
        self.image.width = width;
        self.image.height = height;
        proof {
            assert forall|k: int| 0 <= k < newdim implies #[trigger] self.image.pixels@[k] == if k
                < before.len() {
                before[k]
            } else {
                0 as Pixel
            } by {
                if k < before.len() {
                    if newdim > before.len() {
                        assert(self.image.pixels@.subrange(0, before.len() as int)[k]
                            == self.image.pixels@[k]);
                    }
                } else {
                    assert(vstd::pervasive::cloned::<Pixel>(0, self.image.pixels@[k]));
                }
            }
        }
    }

    /// The number of regions found in the frame, the two placeholders
    /// counted.
    pub fn num_regions(&self) -> (n: usize)
        ensures
            n == self.regions@.len(),
    {
        self.regions.len()
    }

    /// The number of capstones found in the frame.
    pub fn num_capstones(&self) -> (n: usize)
        ensures
            n == self.capstones@.len(),
    {
        self.capstones.len()
    }

    /// The number of grids found in the frame.
    pub fn count(&self) -> (n: usize)
        ensures
            n == self.grids@.len(),
    {
        self.grids.len()
    }

    /// The grid at `index`, or an error where the workspace holds no grid
    /// of that index.
    pub fn grid_at(&self, index: usize) -> (r: Result<Grid, ExtractError>)
        ensures
            match r {
                Ok(grid) => index < self.grids@.len() && grid == self.grids@[index as int],
                Err(e) => index >= self.grids@.len() && e == ExtractError::OutOfBounds,
            },
    {
        if index >= self.grids.len() {
            return Err(ExtractError::OutOfBounds);
        }
        Ok(self.grids[index])
    }

    /// Forgets the regions, capstones and grids. The frame stays.
    pub fn reset(&mut self)
        ensures
            final(self).image == old(self).image,
            final(self).regions@.len() == 0,
            final(self).capstones@.len() == 0,
            final(self).grids@.len() == 0,
    {
        self.regions.clear();
        self.capstones.clear();
        self.grids.clear();
    }

    /// Takes the frame `source` of `width` by `height` samples, makes it
    /// black and white by the threshold, and searches every row of it for
    /// capstones. What it leaves depends on the frame alone, not on what
    /// the workspace held before. A frame wider or higher than
    /// [`MAX_DIMENSION`] is not searched: no capstone is found in it.
    pub fn find_capstones(&mut self, width: usize, height: usize, source: &[u8], threshold: u8)
        requires
            source@.len() == width * height,
        ensures
            final(self).linked(),
            final(self).image.width == width,
            final(self).image.height == height,
            final(self).grids@.len() == 0,
            searchable(width, height) ==> final(self).wf(),
            final(self).scene() == if searchable(width, height) {
                spec_find_capstones(source@, threshold, width as int, height as int)
            } else {
                first_scene(source@, threshold)
            },
    {
        let total: usize = source.len();
        self.resize(width, height);
        // The fields are public: pixels that did not fill their extent
        // before are made to fill it here.
        if self.image.pixels.len() != total {
            self.image.pixels.resize(total, 0);
        }
        self.reset();
        self.regions.push(Region::default());
        self.regions.push(Region::default());
        pixels_setup(&mut self.image, source, threshold);
        proof {
            assert(self.image.pixels@ =~= binarized(source@, threshold));
            assert(self.regions@ =~= seq![placeholder(), placeholder()]);
            assert(views(self.capstones@) =~= Seq::<crate::identify::CapstoneView>::empty());
        }
        if width > MAX_DIMENSION || height > MAX_DIMENSION {
            return ;
        }
        let mut y: usize = 0;
        while y < height
            invariant
                y <= height,
                self.image.wf(),
                self.image.width == width,
                self.image.height == height,
                self.grids@.len() == 0,
                binds_kept(Seq::empty(), views(self.capstones@)),
                scene_ok(self.scene(), width as int, height as int),
                spec_find_capstones(source@, threshold, width as int, height as int)
                    == spec_finder_rows(self.scene(), width as int, height as int, y as int),
            decreases height - y,
        {
            let ghost seen = views(self.capstones@);
            finder_scan(&mut self.image, &mut self.regions, &mut self.capstones, y);
            proof {
                let now = views(self.capstones@);
                assert forall|i: int| 0 <= i < now.len() implies (#[trigger] now[i]).qr_grid
                    == -1 by {
                    if i < seen.len() {
                        assert(seen[i].qr_grid == -1);
                    }
                }
            }
            y += 1;
        }
    }
}

impl Default for Quirc {
    fn default() -> (q: Quirc)
        ensures
            q.wf(),
            q.regions@.len() == 0,
            q.capstones@.len() == 0,
            q.grids@.len() == 0,
    {
        Quirc::new()
    }
}

/// A row of background holds no capstone: searching it changes nothing.
pub proof fn lemma_background_row(sc: Scene, st: RowState, w: int, h: int, x: int, y: int)
    requires
        0 <= x,
        0 <= y < h,
        st.last_color == 0,
        sc.pixels.len() == w * h,
        forall|k: int| 0 <= k < sc.pixels.len() ==> sc.pixels[k] == 0,
    ensures
        spec_finder_row(sc, st, w, h, x, y) == sc,
    decreases w - x,
{
    if x < w {
        assert(0 <= y * w + x < w * h) by (nonlinear_arith)
            requires
                0 <= y < h,
                0 <= x < w,
        ;
        let next = row_step(st, x, color_of(sc.pixels[y * w + x]));
        lemma_background_row(sc, next, w, h, x + 1, y);
    }
}

/// A frame of background holds no capstone: the search for capstones
/// leaves no region but the two placeholders, and no capstone.
pub proof fn lemma_background_frame(source: Seq<u8>, threshold: u8, w: int, h: int)
    requires
        0 <= w,
        0 <= h,
        source.len() == w * h,
        forall|k: int| 0 <= k < source.len() ==> source[k] >= threshold,
    ensures
        spec_find_capstones(source, threshold, w, h) == first_scene(source, threshold),
        spec_find_capstones(source, threshold, w, h).capstones.len() == 0,
{
    lemma_background_rows(first_scene(source, threshold), w, h, 0);
}

/// Rows of background hold no capstone.
pub proof fn lemma_background_rows(sc: Scene, w: int, h: int, y: int)
    requires
        0 <= y,
        0 <= w,
        sc.pixels.len() == w * h,
        forall|k: int| 0 <= k < sc.pixels.len() ==> sc.pixels[k] == 0,
    ensures
        spec_finder_rows(sc, w, h, y) == sc,
    decreases h - y,
{
    if y < h {
        lemma_background_row(sc, row_start(), w, h, 0, y);
        lemma_background_rows(sc, w, h, y + 1);
    }
}


/// Searching the same frame twice gives the same: whatever two workspaces
/// held before, once each has searched the frame for capstones, they hold
/// the same pixels, regions and capstones.
pub proof fn lemma_find_capstones_repeatable(
    first: Quirc,
    second: Quirc,
    source: Seq<u8>,
    threshold: u8,
    w: int,
    h: int,
)
    requires
        first.scene() == spec_find_capstones(source, threshold, w, h),
        second.scene() == spec_find_capstones(source, threshold, w, h),
    ensures
        first.image.pixels@ == second.image.pixels@,
        first.regions@ == second.regions@,
        views(first.capstones@) == views(second.capstones@),
{
}

} // verus!
