//! The trusted boundary around the external bin-packing engine and image
//! type. Each page of the atlas is one skyline packer with a fixed capacity;
//! the packer is a black box whose frame table is named by `packer_frames`,
//! whose fit decision is named by `packer_fits`, and whose source images are
//! measured by `image_dims`.
use vstd::prelude::*;

use crate::AtlasRect;
use image::DynamicImage;
use image::GenericImageView;
use texture_packer::TexturePacker;
use texture_packer::TexturePackerConfig;
use texture_packer::exporter::ImageExporter;

verus! {

#[verifier::external_type_specification]
#[verifier::external_body]
pub struct ExDynamicImage(DynamicImage);

#[verifier::external_type_specification]
#[verifier::external_body]
#[verifier::reject_recursive_types(T)]
#[verifier::reject_recursive_types(K)]
pub struct ExTexturePacker<'a, T: 'a + Clone, K: Clone + Eq + core::hash::Hash>(
    TexturePacker<'a, T, K>,
);

/// One fixed-capacity texture page, keyed by source-image path.
pub type TilePacker = TexturePacker<'static, DynamicImage, String>;

/// What a page holds: each packed key's rectangle `(x, y, w, h)`.
pub uninterp spec fn packer_frames(p: TilePacker) -> Map<Seq<char>, (u32, u32, u32, u32)>;

/// The `(max_width, max_height)` capacity the page was created with.
pub uninterp spec fn packer_limits(p: TilePacker) -> (u32, u32);

/// Whether the page accepts an image of the given pixel size: the skyline
/// packer's fit decision, a function of the page state and the size alone.
pub uninterp spec fn packer_fits(p: TilePacker, w: u32, h: u32) -> bool;

/// An image's pixel size `(width, height)`: a function of the image value
/// alone.
pub uninterp spec fn image_dims(i: DynamicImage) -> (u32, u32);

/// Two rectangles `(x, y, w, h)` share no pixel.
pub open spec fn rects_disjoint(a: (u32, u32, u32, u32), b: (u32, u32, u32, u32)) -> bool {
    ||| a.0 + a.2 <= b.0
    ||| b.0 + b.2 <= a.0
    ||| a.1 + a.3 <= b.1
    ||| b.1 + b.3 <= a.1
}

/// Every rectangle recorded on the page covers at least one pixel and lies
/// within the given capacity.
pub open spec fn page_entries_ok(m: Map<Seq<char>, (u32, u32, u32, u32)>, limits: (u32, u32)) -> bool {
    forall|k: Seq<char>| m.contains_key(k) ==> {
        let v = #[trigger] m[k];
        &&& 1 <= v.2
        &&& 1 <= v.3
        &&& v.0 + v.2 <= limits.0
        &&& v.1 + v.3 <= limits.1
    }
}

/// No two keys of the page overlap.
pub open spec fn page_disjoint(m: Map<Seq<char>, (u32, u32, u32, u32)>) -> bool {
    forall|k1: Seq<char>, k2: Seq<char>|
        k1 != k2 && m.contains_key(k1) && m.contains_key(k2) ==> rects_disjoint(
            #[trigger] m[k1],
            #[trigger] m[k2],
        )
}

/// The page holds at least one frame.
pub open spec fn page_nonempty(m: Map<Seq<char>, (u32, u32, u32, u32)>) -> bool {
    exists|k: Seq<char>| m.contains_key(k)
}

/// Relies on `TexturePacker::new_skyline`: a fresh packer holds no frames and
/// keeps the configured maximum page size. Rotation, trimming and padding are
/// all switched off, so packed rectangles exactly bound their source images.
/// A zero capacity is excluded: the skyline border arithmetic underflows on
/// it.
#[verifier::external_body]
pub(crate) fn new_packer(max_w: u32, max_h: u32) -> (p: TilePacker)
    requires
        max_w >= 1,
        max_h >= 1,
    ensures
        (packer_frames(p) == Map::<Seq<char>, (u32, u32, u32, u32)>::empty()),
        packer_limits(p) == (max_w, max_h),
{
    TexturePacker::new_skyline(TexturePackerConfig {
        max_width: max_w,
        max_height: max_h,
        allow_rotation: false,
        force_max_dimensions: false,
        border_padding: 0,
        texture_padding: 0,
        texture_extrusion: 0,
        trim: false,
        texture_outlines: false,
    })
}

/// Relies on `TexturePacker::pack_own` with trimming and padding off.
/// - Acceptance equals the skyline `can_pack` decision, a function of the
///   page state and the image's size alone, named `packer_fits`; with the
///   empty-skyline start, an image no wider than the capacity and strictly
///   shorter than its height always fits a fresh page.
/// - On success the key is recorded with a rectangle of exactly the image's
///   size, inside the capacity (the border-containment check of `can_put`),
///   and overlapping no previously recorded rectangle (a fresh placement
///   sits on the skyline contour, above everything already placed).
/// - On failure the error paths return before any mutation.
/// Images with a zero dimension or exceeding the capacity are excluded: the
/// skyline's corner arithmetic underflows or wraps on them.
#[verifier::external_body]
pub(crate) fn packer_insert(p: &mut TilePacker, key: String, img: DynamicImage) -> (ok: bool)
    requires
        1 <= image_dims(img).0 <= packer_limits(*old(p)).0,
        1 <= image_dims(img).1 <= packer_limits(*old(p)).1,
    ensures
        packer_limits(*final(p)) == packer_limits(*old(p)),
        ok == packer_fits(*old(p), image_dims(img).0, image_dims(img).1),
        ({
            &&& packer_frames(*old(p)) == Map::<Seq<char>, (u32, u32, u32, u32)>::empty()
            &&& image_dims(img).1 + 1 <= packer_limits(*old(p)).1
        }) ==> ok,
        ok ==> exists|r: (u32, u32, u32, u32)|
            #![trigger packer_frames(*old(p)).insert(key@, r)]
            {
                &&& packer_frames(*final(p)) == packer_frames(*old(p)).insert(key@, r)
                &&& r.2 == image_dims(img).0
                &&& r.3 == image_dims(img).1
                &&& r.0 + r.2 <= packer_limits(*old(p)).0
                &&& r.1 + r.3 <= packer_limits(*old(p)).1
                &&& forall|k: Seq<char>|
                    k != key@ && packer_frames(*old(p)).contains_key(k) ==> rects_disjoint(
                        r,
                        #[trigger] packer_frames(*old(p))[k],
                    )
            },
        !ok ==> *final(p) == *old(p),
{
    p.pack_own(key, img).is_ok()
}

/// Relies on `TexturePacker::get_frame`: it returns the frame recorded for
/// the key, or `None` when the key was never packed.
#[verifier::external_body]
pub(crate) fn packer_rect(p: &TilePacker, key: &String) -> (r: Option<AtlasRect>)
    ensures
        match r {
            Some(a) => packer_frames(*p).contains_key(key@) && packer_frames(*p)[key@] == (
                a.x,
                a.y,
                a.w,
                a.h,
            ),
            None => !packer_frames(*p).contains_key(key@),
        },
{
    match p.get_frame(key) {
        Some(f) => Some(
            AtlasRect { x: f.frame.x, y: f.frame.y, w: f.frame.w, h: f.frame.h },
        ),
        None => None,
    }
}

/// Relies on `ImageExporter::export`: it fails only when the rendered size
/// is zero, so a page holding at least one frame exports. Nothing is
/// assumed of the pixels. Pages with degenerate or out-of-capacity frames,
/// or a capacity whose pixel-buffer size overflows `u32`, are excluded: the
/// exporter's extent and buffer arithmetic underflows or wraps on them.
#[verifier::external_body]
pub(crate) fn packer_export(p: &TilePacker) -> (r: Option<DynamicImage>)
    requires
        page_entries_ok(packer_frames(*p), packer_limits(*p)),
        packer_limits(*p).0 * packer_limits(*p).1 * 4 <= 0xFFFF_FFFF,
    ensures
        page_nonempty(packer_frames(*p)) ==> r is Some,
{
    ImageExporter::export(p, None).ok()
}

/// Relies on `DynamicImage`'s `Clone`: the copy is the same image value.
#[verifier::external_body]
pub(crate) fn clone_image(img: &DynamicImage) -> (r: DynamicImage)
    ensures
        r == *img,
{
    img.clone()
}

/// Relies on `GenericImageView::dimensions` on `DynamicImage`: the image's
/// width and height in pixels, named `image_dims`.
#[verifier::external_body]
pub(crate) fn image_dimensions(img: &DynamicImage) -> (d: (u32, u32))
    ensures
        d == image_dims(*img),
{
    img.dimensions()
}

/// One finished texture page: the rendered image and the pixel size the
/// atlas samples it at.
pub struct AtlasPage {
    pub image: DynamicImage,
    pub width: u32,
    pub height: u32,
}

impl AtlasPage {
    /// Wraps a rendered page, reading its size from the image itself.
    pub fn from_image(image: DynamicImage) -> (p: AtlasPage)
        ensures
            (p.width, p.height) == image_dims(image),
            p.image == image,
    {
        let d = image_dimensions(&image);
        AtlasPage { image, width: d.0, height: d.1 }
    }
}

} // verus!
