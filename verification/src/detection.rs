//! Detection of thermokarst features in grayscale images: the binary mask of
//! dark (water or subsided) areas, its connected components, and their centres.

use vstd::prelude::*;
use crate::regions::{
    are_all_regions, cell_lists, connected_regions, in_scan_order, larger_than, pos, regions_larger_than, scan_regions, Grid,
    Mask,
};

verus! {

/// An 8-bit grayscale image, stored row by row.
#[derive(Debug, Clone)]
pub struct LumaImage {
    pub width: u32,
    pub height: u32,
    pub pixels: Vec<u8>,
}

impl LumaImage {
    /// The pixels fill the rectangle exactly.
    pub open spec fn wf(&self) -> bool {
        self.pixels@.len() == self.width * self.height
    }
}

/// Each pixel brighter than `level` becomes white (255), every other one black (0).
pub open spec fn binary_threshold(pixels: Seq<u8>, level: u8) -> Seq<u8> {
    pixels.map_values(|p: u8| if p > level { 255u8 } else { 0u8 })
}

/// `imageproc::contrast::threshold` with `ThresholdType::Binary`: the result
/// has the size of `img`, and each pixel brighter than `level` becomes 255 and
/// every other pixel 0.
#[verifier::external_body]
fn threshold_binary(img: &LumaImage, level: u8) -> (out: LumaImage)
    requires
        img.wf(),
    ensures
        out.width == img.width,
        out.height == img.height,
        out.pixels@ == binary_threshold(img.pixels@, level),
{
    let gray = image::GrayImage::from_raw(img.width, img.height, img.pixels.clone()).unwrap();
    let out = imageproc::contrast::threshold(&gray, level, imageproc::contrast::ThresholdType::Binary);
    let (width, height) = out.dimensions();
    LumaImage { width, height, pixels: out.into_raw() }
}

/// The grid of dark pixels (below 128) of `img`.
pub open spec fn dark_grid(img: LumaImage) -> Grid {
    Grid {
        width: img.width as nat,
        height: img.height as nat,
        cells: img.pixels@.map_values(|p: u8| p < 128),
    }
}

/// The mask of dark pixels (below 128) of `img`.
fn dark_mask(img: &LumaImage) -> (m: Mask)
    requires
        img.wf(),
    ensures
        m.wf(),
        m@ == dark_grid(*img),
{
    let mut cells: Vec<bool> = Vec::new();
    let mut i: usize = 0;
    while i < img.pixels.len()
        invariant
            i <= img.pixels@.len(),
            cells@ =~= img.pixels@.subrange(0, i as int).map_values(|p: u8| p < 128),
        decreases img.pixels@.len() - i,
    {
        cells.push(img.pixels[i] < 128);
        i += 1;
    }
    assert(img.pixels@.subrange(0, img.pixels@.len() as int) =~= img.pixels@);
    Mask { width: img.width as usize, height: img.height as usize, cells }
}

/// A connected set of pixels.
#[derive(Debug, Clone)]
pub struct Component {
    pub pixels: Vec<(u32, u32)>,
}

/// The cells of a component, as positions.
pub open spec fn component_cells(c: Component) -> Seq<(usize, usize)> {
    widen(c.pixels@)
}

/// Pixel positions taken as `usize` pairs.
pub open spec fn widen(s: Seq<(u32, u32)>) -> Seq<(usize, usize)> {
    s.map_values(|p: (u32, u32)| (p.0 as usize, p.1 as usize))
}

/// The cell lists of some components.
pub open spec fn component_lists(cs: Seq<Component>) -> Seq<Seq<(usize, usize)>> {
    cs.map_values(|c: Component| component_cells(c))
}

/// A circle fitted to a component, in pixels.
#[derive(Debug, Clone)]
pub struct Circle {
    pub center_x: u32,
    pub center_y: u32,
    pub radius: u32,
}

/// The outcome of a detection: the circles found, the edge image and the binary mask.
#[derive(Debug, Clone)]
pub struct DetectionResult {
    pub circles: Vec<Circle>,
    pub edges: LumaImage,
    pub mask: LumaImage,
}

/// The pixel positions of a region, narrowed to 32 bits.
fn to_component(cells: &Vec<(usize, usize)>, g: Ghost<Grid>, w: u32, h: u32) -> (c: Component)
    requires
        g@.width == w,
        g@.height == h,
        forall|j: int| 0 <= j < cells@.len() ==> g@.is_set(pos(#[trigger] cells@[j])),
    ensures
        component_cells(c) == cells@,
{
    let mut pixels: Vec<(u32, u32)> = Vec::new();
    let mut j: usize = 0;
    while j < cells.len()
        invariant
            j <= cells@.len(),
            g@.width == w,
            g@.height == h,
            forall|t: int| 0 <= t < cells@.len() ==> g@.is_set(pos(#[trigger] cells@[t])),
            pixels@.len() == j,
            widen(pixels@) =~= cells@.subrange(0, j as int),
        decreases cells@.len() - j,
    {
        let (x, y) = cells[j];
        assert(g@.is_set(pos(cells@[j as int])));
        assert(x < w && y < h);
        let ghost before = pixels@;
        pixels.push((x as u32, y as u32));
        assert(pixels@ == before.push((x as u32, y as u32)));
        assert(((x as u32) as usize, (y as u32) as usize) == cells@[j as int]);
        assert(widen(pixels@) =~= cells@.subrange(0, j + 1)) by {
            assert(widen(before) =~= cells@.subrange(0, j as int));
            assert forall|t: int| 0 <= t < j + 1 implies widen(pixels@)[t]
                == cells@.subrange(0, j + 1)[t] by {
                if t < j {
                    assert(pixels@[t] == before[t]);
                    assert(widen(before)[t] == cells@.subrange(0, j as int)[t]);
                }
            }
        }
        j += 1;
    }
    assert(cells@.subrange(0, cells@.len() as int) =~= cells@);
    Component { pixels }
}

/// The components of a list of regions of `g`.
fn to_components(regions: &Vec<Vec<(usize, usize)>>, g: Ghost<Grid>, w: u32, h: u32) -> (cs: Vec<Component>)
    requires
        g@.width == w,
        g@.height == h,
        forall|r: int, j: int|
            0 <= r < regions@.len() && 0 <= j < regions@[r]@.len() ==> g@.is_set(pos(#[trigger] regions@[r]@[j])),
    ensures
        component_lists(cs@) == cell_lists(regions@),
{
    let mut cs: Vec<Component> = Vec::new();
    let mut r: usize = 0;
    while r < regions.len()
        invariant
            r <= regions@.len(),
            g@.width == w,
            g@.height == h,
            forall|rr: int, j: int|
                0 <= rr < regions@.len() && 0 <= j < regions@[rr]@.len() ==> g@.is_set(
                    pos(#[trigger] regions@[rr]@[j]),
                ),
            cs@.len() == r,
            component_lists(cs@) =~= cell_lists(regions@.subrange(0, r as int)),
        decreases regions@.len() - r,
    {
        let region = &regions[r];
        assert forall|j: int| 0 <= j < region@.len() implies g@.is_set(pos(#[trigger] region@[j])) by {
            assert(region@[j] == regions@[r as int]@[j]);
        }
        let c = to_component(region, g, w, h);
        let ghost before = cs@;
        cs.push(c);
        assert(component_lists(cs@) =~= cell_lists(regions@.subrange(0, r + 1))) by {
            assert forall|t: int| 0 <= t < r + 1 implies component_lists(cs@)[t] == cell_lists(
                regions@.subrange(0, r + 1),
            )[t] by {
                if t < r {
                    assert(cs@[t] == before[t]);
                    assert(component_lists(before)[t] == cell_lists(regions@.subrange(0, r as int))[t]);
                } else {
                    assert(cs@[t] == c);
                }
            }
        }
        r += 1;
    }
    assert(regions@.subrange(0, regions@.len() as int) =~= regions@);
    cs
}

/// Detector of thermokarst features in a grayscale image.
pub struct ThermokarstDetector {
    image: LumaImage,
}

impl ThermokarstDetector {
    #[verifier::type_invariant]
    spec fn image_fits(self) -> bool {
        self.image.wf()
    }

    /// The image this detector looks at.
    pub closed spec fn spec_image(&self) -> LumaImage {
        self.image
    }

    /// A detector for the grayscale image `image`.
    pub fn new(image: LumaImage) -> (d: Self)
        requires
            image.wf(),
        ensures
            d.spec_image() == image,
    {
        ThermokarstDetector { image }
    }

    /// The image this detector looks at.
    pub fn image(&self) -> (img: &LumaImage)
        ensures
            *img == self.spec_image(),
    {
        &self.image
    }

    /// The binary mask of the image at level 100: pixels above 100 become
    /// white, all others black.
    pub fn threshold_mask(&self) -> (mask: LumaImage)
        ensures
            mask.width == self.spec_image().width,
            mask.height == self.spec_image().height,
            mask.pixels@ == binary_threshold(self.spec_image().pixels@, 100),
    {
        proof {
            use_type_invariant(self);
        }
        threshold_binary(&self.image, 100)
    }

    /// The connected components of the dark pixels (below 128) of `mask`.
    pub fn find_connected_components(&self, mask: &LumaImage) -> (components: Vec<Component>)
        requires
            mask.wf(),
        ensures
            component_lists(components@) == scan_regions(dark_grid(*mask)),
            are_all_regions(dark_grid(*mask), component_lists(components@)),
            in_scan_order(component_lists(components@)),
    {
        let m = dark_mask(mask);
        let regions = connected_regions(&m);
        assert forall|r: int, j: int|
            0 <= r < regions@.len() && 0 <= j < regions@[r]@.len() implies m@.is_set(pos(#[trigger] regions@[r]@[j])) by {
            assert(cell_lists(regions@)[r] == regions@[r]@);
        }
        to_components(&regions, Ghost(m@), mask.width, mask.height)
    }

    /// The components of the dark pixels of `mask` that are large enough to
    /// be fitted with a circle: more than 100 pixels.
    pub fn find_circle_components(&self, mask: &LumaImage) -> (components: Vec<Component>)
        requires
            mask.wf(),
        ensures
            component_lists(components@) == scan_regions(dark_grid(*mask)).filter(larger_than(100)),
            are_all_regions(dark_grid(*mask), scan_regions(dark_grid(*mask))),
            in_scan_order(scan_regions(dark_grid(*mask))),
    {
        let m = dark_mask(mask);
        let big = regions_larger_than(&m, 100);
        proof {
            let all = scan_regions(m@);
            assert forall|r: int, j: int|
                0 <= r < big@.len() && 0 <= j < big@[r]@.len() implies m@.is_set(pos(#[trigger] big@[r]@[j])) by {
                let f = all.filter(larger_than(100));
                assert(cell_lists(big@)[r] == big@[r]@);
                assert(f.contains(f[r]));
                all.lemma_filter_contains_rev(larger_than(100), f[r]);
                let k = choose|k: int| 0 <= k < all.len() && all[k] == f[r];
                assert(all[k][j] == big@[r]@[j]);
            }
        }
        to_components(&big, Ghost(m@), mask.width, mask.height)
    }
}

/// The sum of the x coordinates of `s`.
pub open spec fn sum_x(s: Seq<(u32, u32)>) -> nat
    decreases s.len(),
{
    if s.len() == 0 {
        0
    } else {
        sum_x(s.drop_last()) + s.last().0 as nat
    }
}

/// The sum of the y coordinates of `s`.
pub open spec fn sum_y(s: Seq<(u32, u32)>) -> nat
    decreases s.len(),
{
    if s.len() == 0 {
        0
    } else {
        sum_y(s.drop_last()) + s.last().1 as nat
    }
}

/// The coordinate sums of no pixels are 0, and appending a pixel adds its
/// coordinates to them.
pub proof fn lemma_pixel_sums(s: Seq<(u32, u32)>, p: (u32, u32))
    ensures
        sum_x(Seq::<(u32, u32)>::empty()) == 0,
        sum_y(Seq::<(u32, u32)>::empty()) == 0,
        sum_x(s.push(p)) == sum_x(s) + p.0,
        sum_y(s.push(p)) == sum_y(s) + p.1,
{
    assert(s.push(p).drop_last() =~= s);
}

/// Thresholding keeps the number of pixels and maps each pixel alone: above
/// `level` to 255, else to 0.
pub proof fn lemma_binary_threshold(pixels: Seq<u8>, level: u8)
    ensures
        binary_threshold(pixels, level).len() == pixels.len(),
        forall|i: int|
            0 <= i < pixels.len() ==> #[trigger] binary_threshold(pixels, level)[i] == (if pixels[i] > level {
                255u8
            } else {
                0u8
            }),
{
}

/// The dark grid has the image's size, and a cell is set exactly when its
/// pixel is below 128.
pub proof fn lemma_dark_grid(img: LumaImage)
    ensures
        dark_grid(img).width == img.width,
        dark_grid(img).height == img.height,
        dark_grid(img).cells.len() == img.pixels@.len(),
        forall|i: int| 0 <= i < img.pixels@.len() ==> #[trigger] dark_grid(img).cells[i] == (img.pixels@[i] < 128),
{
}

/// Sums over a prefix are no larger than over the whole sequence.
proof fn lemma_sum_prefix(s: Seq<(u32, u32)>, k: int)
    requires
        0 <= k <= s.len(),
    ensures
        sum_x(s.take(k)) <= sum_x(s),
        sum_y(s.take(k)) <= sum_y(s),
    decreases s.len() - k,
{
    if k < s.len() {
        lemma_sum_prefix(s, k + 1);
        assert(s.take(k + 1).drop_last() =~= s.take(k));
    } else {
        assert(s.take(k) =~= s);
    }
}

impl ThermokarstDetector {
    /// The centre of mass of a component: the sums of its coordinates divided
    /// by its pixel count (taken as a `u32`), rounded down.
    pub fn component_center(&self, component: &Component) -> (center: (u32, u32))
        requires
            component.pixels@.len() as u32 != 0,
            sum_x(component.pixels@) <= u32::MAX,
            sum_y(component.pixels@) <= u32::MAX,
        ensures
            center.0 == sum_x(component.pixels@) / (component.pixels@.len() as u32 as nat),
            center.1 == sum_y(component.pixels@) / (component.pixels@.len() as u32 as nat),
    {
        let pixels = &component.pixels;
        let mut total_x: u32 = 0;
        let mut total_y: u32 = 0;
        let mut i: usize = 0;
        while i < pixels.len()
            invariant
                i <= pixels@.len(),
                sum_x(pixels@) <= u32::MAX,
                sum_y(pixels@) <= u32::MAX,
                total_x == sum_x(pixels@.take(i as int)),
                total_y == sum_y(pixels@.take(i as int)),
            decreases pixels@.len() - i,
        {
            proof {
                lemma_sum_prefix(pixels@, i + 1);
                assert(pixels@.take(i + 1).drop_last() =~= pixels@.take(i as int));
            }
            total_x = total_x + pixels[i].0;
            total_y = total_y + pixels[i].1;
            i += 1;
        }
        assert(pixels@.take(pixels@.len() as int) =~= pixels@);
        let count = pixels.len() as u32;
        (total_x / count, total_y / count)
    }
}

} // verus!
