//! The tile atlas: a builder that packs source images onto pages first-fit,
//! a frame table mapping tile indices to packed placements, and a resolver
//! that turns a tile index and a clock into an exact texture-cell offset.
use vstd::prelude::*;

use crate::AtlasRect;
use crate::alist::{alist_map, alist_unique, lemma_alist_map_dom, lemma_alist_map_index,
    lemma_alist_map_absent, lemma_alist_map_push, lemma_alist_map_update};
use crate::pack::{TilePacker, AtlasPage, packer_frames, packer_limits, packer_fits, image_dims,
    rects_disjoint, page_entries_ok, page_disjoint, page_nonempty, new_packer, packer_insert,
    packer_rect, packer_export, clone_image, image_dimensions};
use image::DynamicImage;

verus! {

/// How a tile animates: `Static` tiles never change; `Animated(frame_count,
/// delay_millis)` tiles loop through `frame_count` sub-frames, advancing
/// every `delay_millis` milliseconds.
#[derive(Clone, Copy, Debug, PartialEq, Eq, Structural)]
pub enum TileKind {
    Static,
    Animated(u64, u64),
}

/// One logical tile within a frame's grid: its cell coordinate, whether the
/// source art is a 2x2 autotile, and its animation kind.
#[derive(Clone, Copy, Debug, PartialEq, Eq)]
pub struct AtlasTile {
    pub offset: (u32, u32),
    pub is_autotile: bool,
    pub tile_kind: TileKind,
}

/// Packed placement and metadata for one source image: its grid-cell size,
/// the page it landed on, its packed rectangle, and the tiles it hosts.
#[derive(Debug, PartialEq, Eq)]
pub struct AtlasFrame {
    pub tile_size: (u32, u32),
    pub texture_idx: usize,
    pub rect: AtlasRect,
    pub offsets: Vec<(usize, AtlasTile)>,
}

/// The mathematical content of an `AtlasFrame`.
#[verifier::ext_equal]
pub ghost struct FrameView {
    pub tile_size: (u32, u32),
    pub texture_idx: usize,
    pub rect: AtlasRect,
    pub offsets: Seq<(usize, AtlasTile)>,
}

impl View for AtlasFrame {
    type V = FrameView;

    open spec fn view(&self) -> FrameView {
        FrameView {
            tile_size: self.tile_size,
            texture_idx: self.texture_idx,
            rect: self.rect,
            offsets: self.offsets@,
        }
    }
}

impl AtlasFrame {
    /// A fresh frame on page `texture_idx` at `rect`, hosting no tiles yet.
    pub fn new(texture_idx: usize, rect: AtlasRect, tile_size: (u32, u32)) -> (f: AtlasFrame)
        ensures
            f@ == (FrameView { tile_size, texture_idx, rect, offsets: Seq::empty() }),
    {
        AtlasFrame { tile_size, texture_idx, rect, offsets: Vec::new() }
    }
}

/// A failure of the build step.
#[derive(Clone, Copy, Debug, PartialEq, Eq, Structural)]
pub enum AtlasError {
    /// The image could not be placed on any page, even a fresh one.
    PackingFailed,
    /// A page could not be rendered to an image.
    ExportFailed,
}

/// The key sequences the frame table is addressed by.
pub open spec fn loc_view(s: Seq<(usize, String)>) -> Seq<(usize, Seq<char>)> {
    s.map_values(|p: (usize, String)| (p.0, p.1@))
}

pub open spec fn frames_view(s: Seq<(String, AtlasFrame)>) -> Seq<(Seq<char>, FrameView)> {
    s.map_values(|p: (String, AtlasFrame)| (p.0@, p.1@))
}

/// Index form of `loc_view`.
pub proof fn lemma_loc_view_index(s: Seq<(usize, String)>, j: int)
    ensures
        loc_view(s).len() == s.len(),
        0 <= j < s.len() ==> loc_view(s)[j] == (s[j].0, s[j].1@),
{
}

/// Index form of `frames_view`.
pub proof fn lemma_frames_view_index(s: Seq<(String, AtlasFrame)>, j: int)
    ensures
        frames_view(s).len() == s.len(),
        0 <= j < s.len() ==> frames_view(s)[j] == (s[j].0@, s[j].1@),
{
}

/// `frames_view` distributes over `push`.
pub proof fn lemma_frames_view_push(s: Seq<(String, AtlasFrame)>, e: (String, AtlasFrame))
    ensures
        (frames_view(s.push(e)) =~~= frames_view(s).push((e.0@, e.1@))),
{
    lemma_frames_view_index(s.push(e), 0);
    lemma_frames_view_index(s, 0);
    assert forall|j: int| 0 <= j < s.len() + 1 implies frames_view(s.push(e))[j] == frames_view(
        s,
    ).push((e.0@, e.1@))[j] by {
        lemma_frames_view_index(s.push(e), j);
        lemma_frames_view_index(s, j);
        if j < s.len() {
            assert(s.push(e)[j] == s[j]);
        } else {
            assert(s.push(e)[j] == e);
        }
    }
}

/// An animated tile has at least one sub-frame, a positive delay, and a
/// machine-bounded frame count.
pub open spec fn tile_valid(t: AtlasTile) -> bool {
    match t.tile_kind {
        TileKind::Static => true,
        TileKind::Animated(fc, d) => 1 <= fc <= 0xFFFF_FFFFu64 && d >= 1,
    }
}

/// A frame's own invariant: unique tile indices, a non-degenerate grid cell,
/// valid tiles.
pub open spec fn frame_view_wf(f: FrameView) -> bool {
    &&& alist_unique(f.offsets)
    &&& f.tile_size.0 >= 1
    &&& f.tile_size.1 >= 1
    &&& forall|i: int| 0 <= i < f.offsets.len() ==> tile_valid((#[trigger] f.offsets[i]).1)
}

/// Every registered tile index leads to a frame that hosts it.
pub open spec fn links_ok(locs: Seq<(usize, Seq<char>)>, frames: Seq<(Seq<char>, FrameView)>) -> bool {
    forall|i: int| 0 <= i < locs.len() ==> {
        let e = #[trigger] locs[i];
        &&& alist_map(frames).contains_key(e.1)
        &&& alist_map(alist_map(frames)[e.1].offsets).contains_key(e.0)
    }
}

/// The frame table's invariant, shared by builder, atlas and persisted
/// config: unique keys throughout, well-formed frames, consistent links.
pub open spec fn table_wf(locs: Seq<(usize, Seq<char>)>, frames: Seq<(Seq<char>, FrameView)>) -> bool {
    &&& alist_unique(locs)
    &&& alist_unique(frames)
    &&& forall|i: int| 0 <= i < frames.len() ==> frame_view_wf((#[trigger] frames[i]).1)
    &&& links_ok(locs, frames)
}

/// Every frame's page index points at one of `npages` pages.
pub open spec fn pages_ok(frames: Seq<(Seq<char>, FrameView)>, npages: int) -> bool {
    forall|i: int| 0 <= i < frames.len() ==> (#[trigger] frames[i]).1.texture_idx < npages
}

/// Whether `idx` is a registered tile index.
pub open spec fn spec_has_tile(locs: Seq<(usize, Seq<char>)>, idx: usize) -> bool {
    alist_map(locs).contains_key(idx)
}

/// The frame a registered tile index resolves to.
pub open spec fn spec_frame_at(
    locs: Seq<(usize, Seq<char>)>,
    frames: Seq<(Seq<char>, FrameView)>,
    idx: usize,
) -> FrameView {
    alist_map(frames)[alist_map(locs)[idx]]
}

/// The tile data a registered tile index resolves to.
pub open spec fn spec_tile_at(
    locs: Seq<(usize, Seq<char>)>,
    frames: Seq<(Seq<char>, FrameView)>,
    idx: usize,
) -> AtlasTile {
    alist_map(spec_frame_at(locs, frames, idx).offsets)[idx]
}

/// Ceiling division of non-negative integers.
pub open spec fn spec_ceil_div(a: int, b: int) -> int {
    (a + b - 1) / b
}

/// The frame's top-left grid cell within its page: its packed rectangle's
/// corner in units of the nominal grid cell, rounded up to the first fully
/// contained cell.
pub open spec fn spec_grid_offset(rect: AtlasRect, ts: (u32, u32)) -> (int, int) {
    (spec_ceil_div(rect.x as int, ts.0 as int), spec_ceil_div(rect.y as int, ts.1 as int))
}

/// The sampling unit: half the nominal cell in each axis for autotiles.
pub open spec fn spec_effective_tile_size(ts: (u32, u32), autotile: bool) -> (int, int) {
    if autotile {
        (ts.0 as int / 2, ts.1 as int / 2)
    } else {
        (ts.0 as int, ts.1 as int)
    }
}

/// The current animation sub-frame at `msecs`.
pub open spec fn spec_current_frame(kind: TileKind, msecs: u64) -> int {
    match kind {
        TileKind::Static => 0,
        TileKind::Animated(fc, d) => (msecs as int / d as int) % (fc as int),
    }
}

/// The tile's current cell index: tile offset plus grid offset, doubled for
/// autotiles (cells are addressed in half-size units), plus the animation
/// advance, itself doubled for autotiles.
pub open spec fn spec_cell_index(f: FrameView, t: AtlasTile, msecs: u64) -> (int, int) {
    let m: int = if t.is_autotile { 2 } else { 1 };
    let g = spec_grid_offset(f.rect, f.tile_size);
    (
        (t.offset.0 + g.0) * m + spec_current_frame(t.tile_kind, msecs) * m,
        (t.offset.1 + g.1) * m,
    )
}

/// How many sampling cells fit on the page per axis; the normalized texture
/// ratio is the reciprocal pair.
pub open spec fn spec_grid_cells(page: (u32, u32), eff: (int, int)) -> (int, int) {
    (page.0 as int / eff.0, page.1 as int / eff.1)
}

/// The inputs on which the resolver's integer arithmetic is defined: the
/// tile is registered, its sampling unit is at least one pixel, and its page
/// is at least one sampling unit in each axis.
pub open spec fn resolve_ok(
    locs: Seq<(usize, Seq<char>)>,
    frames: Seq<(Seq<char>, FrameView)>,
    page_dims: Seq<(u32, u32)>,
    idx: usize,
) -> bool {
    &&& spec_has_tile(locs, idx)
    &&& {
        let f = spec_frame_at(locs, frames, idx);
        let t = spec_tile_at(locs, frames, idx);
        let eff = spec_effective_tile_size(f.tile_size, t.is_autotile);
        &&& eff.0 >= 1
        &&& eff.1 >= 1
        &&& f.texture_idx < page_dims.len()
        &&& page_dims[f.texture_idx as int].0 >= eff.0
        &&& page_dims[f.texture_idx as int].1 >= eff.1
    }
}

/// The resolver's full answer: the cell index pair and the per-axis cell
/// count of the page; the normalized offset is their per-axis quotient.
pub open spec fn spec_texture_offset(
    locs: Seq<(usize, Seq<char>)>,
    frames: Seq<(Seq<char>, FrameView)>,
    page_dims: Seq<(u32, u32)>,
    idx: usize,
    msecs: u64,
) -> ((int, int), (int, int)) {
    let f = spec_frame_at(locs, frames, idx);
    let t = spec_tile_at(locs, frames, idx);
    let eff = spec_effective_tile_size(f.tile_size, t.is_autotile);
    (spec_cell_index(f, t, msecs), spec_grid_cells(page_dims[f.texture_idx as int], eff))
}

/// The frame's top-left grid cell within its page, by ceiling division.
pub fn get_add_offset(rect: &AtlasRect, tile_size: &(u32, u32)) -> (r: (u32, u32))
    requires
        tile_size.0 >= 1,
        tile_size.1 >= 1,
    ensures
        (r.0 as int, r.1 as int) == spec_grid_offset(*rect, *tile_size),
{
    proof {
        let x = rect.x as int;
        let y = rect.y as int;
        let w = tile_size.0 as int;
        let h = tile_size.1 as int;
        assert((x + w - 1) / w <= x && (x + w - 1) / w >= 0) by (nonlinear_arith)
            requires x >= 0 && w >= 1;
        assert((y + h - 1) / h <= y && (y + h - 1) / h >= 0) by (nonlinear_arith)
            requires y >= 0 && h >= 1;
    }
    let cols = ((rect.x as u64 + tile_size.0 as u64 - 1) / tile_size.0 as u64) as u32;
    let rows = ((rect.y as u64 + tile_size.1 as u64 - 1) / tile_size.1 as u64) as u32;
    (cols, rows)
}

/// From a registered index, the enclosing invariant yields a well-formed
/// frame that hosts a valid tile.
pub proof fn lemma_resolve_wf(
    locs: Seq<(usize, Seq<char>)>,
    frames: Seq<(Seq<char>, FrameView)>,
    idx: usize,
)
    requires
        table_wf(locs, frames),
        spec_has_tile(locs, idx),
    ensures
        alist_map(frames).contains_key(alist_map(locs)[idx]),
        frame_view_wf(spec_frame_at(locs, frames, idx)),
        alist_map(spec_frame_at(locs, frames, idx).offsets).contains_key(idx),
        tile_valid(spec_tile_at(locs, frames, idx)),
{
    lemma_alist_map_dom(locs);
    let i = choose|i: int| 0 <= i < locs.len() && #[trigger] locs[i].0 == idx;
    lemma_alist_map_index(locs, i);
    assert(alist_map(locs)[idx] == locs[i].1);
    let e = locs[i];
    assert(alist_map(frames).contains_key(e.1));
    assert(alist_map(alist_map(frames)[e.1].offsets).contains_key(e.0));
    lemma_alist_map_dom(frames);
    let j = choose|j: int| 0 <= j < frames.len() && #[trigger] frames[j].0 == e.1;
    lemma_alist_map_index(frames, j);
    assert(frame_view_wf(frames[j].1));
    let f = spec_frame_at(locs, frames, idx);
    lemma_alist_map_dom(f.offsets);
    let k = choose|k: int| 0 <= k < f.offsets.len() && #[trigger] f.offsets[k].0 == idx;
    lemma_alist_map_index(f.offsets, k);
}

/// With pages consistent, a registered index's frame sits on an existing
/// page.
pub proof fn lemma_resolve_page(
    locs: Seq<(usize, Seq<char>)>,
    frames: Seq<(Seq<char>, FrameView)>,
    npages: int,
    idx: usize,
)
    requires
        table_wf(locs, frames),
        pages_ok(frames, npages),
        spec_has_tile(locs, idx),
    ensures
        spec_frame_at(locs, frames, idx).texture_idx < npages,
{
    lemma_alist_map_dom(locs);
    let i = choose|i: int| 0 <= i < locs.len() && #[trigger] locs[i].0 == idx;
    lemma_alist_map_index(locs, i);
    let e = locs[i];
    lemma_alist_map_dom(frames);
    let j = choose|j: int| 0 <= j < frames.len() && #[trigger] frames[j].0 == e.1;
    lemma_alist_map_index(frames, j);
    assert(frames[j].1.texture_idx < npages);
}

/// Position of `key` in the frame list, if any.
pub(crate) fn find_frame(frames: &Vec<(String, AtlasFrame)>, key: &String) -> (r: Option<usize>)
    ensures
        match r {
            Some(i) => i < frames@.len() && frames@[i as int].0@ == key@,
            None => forall|j: int| 0 <= j < frames@.len() ==> (#[trigger] frames@[j]).0@ != key@,
        },
{
    let mut i: usize = 0;
    while i < frames.len()
        invariant
            i <= frames@.len(),
            forall|j: int| 0 <= j < i ==> (#[trigger] frames@[j]).0@ != key@,
        decreases frames@.len() - i,
    {
        if frames[i].0 == *key {
            return Some(i);
        }
        i += 1;
    }
    None
}

/// Position of tile index `idx` in the location list, if any.
fn find_location(locations: &Vec<(usize, String)>, idx: usize) -> (r: Option<usize>)
    ensures
        match r {
            Some(i) => i < locations@.len() && locations@[i as int].0 == idx,
            None => forall|j: int| 0 <= j < locations@.len() ==> (#[trigger] locations@[j]).0 != idx,
        },
{
    let mut i: usize = 0;
    while i < locations.len()
        invariant
            i <= locations@.len(),
            forall|j: int| 0 <= j < i ==> (#[trigger] locations@[j]).0 != idx,
        decreases locations@.len() - i,
    {
        if locations[i].0 == idx {
            return Some(i);
        }
        i += 1;
    }
    None
}

/// Position of tile index `idx` in a frame's tile list, if any.
pub(crate) fn find_tile(offsets: &Vec<(usize, AtlasTile)>, idx: usize) -> (r: Option<usize>)
    ensures
        match r {
            Some(i) => i < offsets@.len() && offsets@[i as int].0 == idx,
            None => forall|j: int| 0 <= j < offsets@.len() ==> (#[trigger] offsets@[j]).0 != idx,
        },
{
    let mut i: usize = 0;
    while i < offsets.len()
        invariant
            i <= offsets@.len(),
            forall|j: int| 0 <= j < i ==> (#[trigger] offsets@[j]).0 != idx,
        decreases offsets@.len() - i,
    {
        if offsets[i].0 == idx {
            return Some(i);
        }
        i += 1;
    }
    None
}

/// An exact copy of the location list.
pub(crate) fn clone_locations(v: &Vec<(usize, String)>) -> (r: Vec<(usize, String)>)
    ensures
        r@ =~= v@,
{
    let mut r: Vec<(usize, String)> = Vec::new();
    let mut i: usize = 0;
    while i < v.len()
        invariant
            i <= v@.len(),
            r@ =~= v@.take(i as int),
        decreases v@.len() - i,
    {
        r.push((v[i].0, v[i].1.clone()));
        proof {
            assert(r@ =~= v@.take(i + 1));
        }
        i += 1;
    }
    proof {
        assert(v@.take(v@.len() as int) =~= v@);
    }
    r
}

/// An exact copy of a frame's tile list.
fn clone_offsets(v: &Vec<(usize, AtlasTile)>) -> (r: Vec<(usize, AtlasTile)>)
    ensures
        r@ =~= v@,
{
    let mut r: Vec<(usize, AtlasTile)> = Vec::new();
    let mut i: usize = 0;
    while i < v.len()
        invariant
            i <= v@.len(),
            r@ =~= v@.take(i as int),
        decreases v@.len() - i,
    {
        r.push(v[i]);
        proof {
            assert(r@ =~= v@.take(i + 1));
        }
        i += 1;
    }
    proof {
        assert(v@.take(v@.len() as int) =~= v@);
    }
    r
}

/// A copy of the frame list with the same view.
pub(crate) fn clone_frames(v: &Vec<(String, AtlasFrame)>) -> (r: Vec<(String, AtlasFrame)>)
    ensures
        frames_view(r@) =~= frames_view(v@),
{
    let mut r: Vec<(String, AtlasFrame)> = Vec::new();
    let mut i: usize = 0;
    while i < v.len()
        invariant
            i <= v@.len(),
            r@.len() == i,
            frames_view(r@) =~~= frames_view(v@.take(i as int)),
        decreases v@.len() - i,
    {
        let e = &v[i];
        let f = AtlasFrame {
            tile_size: e.1.tile_size,
            texture_idx: e.1.texture_idx,
            rect: e.1.rect,
            offsets: clone_offsets(&e.1.offsets),
        };
        let ghost r0 = r@;
        r.push((e.0.clone(), f));
        proof {
            let a = frames_view(r@);
            let b = frames_view(v@.take(i + 1));
            lemma_frames_view_index(r@, 0);
            lemma_frames_view_index(v@.take(i + 1), 0);
            assert forall|j: int| 0 <= j < a.len() implies a[j] == b[j] by {
                lemma_frames_view_index(r@, j);
                lemma_frames_view_index(v@.take(i + 1), j);
                lemma_frames_view_index(r0, j);
                lemma_frames_view_index(v@.take(i as int), j);
                assert(v@.take(i + 1)[j] == v@[j]);
                if j < i {
                    assert(r@[j] == r0[j]);
                    assert(frames_view(r0)[j] == frames_view(v@.take(i as int))[j]);
                    assert(v@.take(i as int)[j] == v@[j]);
                } else {
                    assert(r@[j].0 == e.0 && r@[j].1 == f);
                    assert(f@ =~~= v@[j].1@);
                }
            }
            assert(a =~~= b);
        }
        i += 1;
    }
    proof {
        assert(v@.take(v@.len() as int) =~= v@);
    }
    r
}

/// The page capacity of the multi-page tile atlas.
pub const MAX_PAGE_W: u32 = 2048;

/// The page capacity of the multi-page tile atlas.
pub const MAX_PAGE_H: u32 = 2048;

/// Every frame's packed rectangle is recorded, under the frame's key, on
/// the page it names.
pub open spec fn frames_on_pages(
    frames: Seq<(Seq<char>, FrameView)>,
    pages: Seq<Map<Seq<char>, (u32, u32, u32, u32)>>,
) -> bool {
    forall|j: int| 0 <= j < frames.len() ==> {
        let e = #[trigger] frames[j];
        &&& e.1.texture_idx < pages.len()
        &&& pages[e.1.texture_idx as int].contains_key(e.0)
        &&& pages[e.1.texture_idx as int][e.0] == (e.1.rect.x, e.1.rect.y, e.1.rect.w, e.1.rect.h)
    }
}

/// Frames that share a page never overlap: the packer places each new
/// rectangle clear of everything already on that page.
pub proof fn lemma_frames_disjoint(b: TileAtlasBuilder, j1: int, j2: int)
    requires
        b.wf(),
        0 <= j1 < b@.frames.len(),
        0 <= j2 < b@.frames.len(),
        b@.frames[j1].0 != b@.frames[j2].0,
        b@.frames[j1].1.texture_idx == b@.frames[j2].1.texture_idx,
    ensures
        rects_disjoint(
            (b@.frames[j1].1.rect.x, b@.frames[j1].1.rect.y, b@.frames[j1].1.rect.w, b@.frames[j1].1.rect.h),
            (b@.frames[j2].1.rect.x, b@.frames[j2].1.rect.y, b@.frames[j2].1.rect.w, b@.frames[j2].1.rect.h),
        ),
{
    let e1 = b@.frames[j1];
    let e2 = b@.frames[j2];
    let m = b@.pages[e1.1.texture_idx as int];
    assert(m.contains_key(e1.0) && m[e1.0] == (e1.1.rect.x, e1.1.rect.y, e1.1.rect.w, e1.1.rect.h));
    assert(m.contains_key(e2.0) && m[e2.0] == (e2.1.rect.x, e2.1.rect.y, e2.1.rect.w, e2.1.rect.h));
    assert(page_disjoint(m));
}

/// Accumulates frames and tiles, packing each new source image onto the
/// first page with room, or onto a freshly opened page.
pub struct TileAtlasBuilder {
    locations: Vec<(usize, String)>,
    frames: Vec<(String, AtlasFrame)>,
    packers: Vec<TilePacker>,
}

/// The mathematical content of a builder: its tables and, per page, the
/// packed keys and rectangles.
#[verifier::ext_equal]
pub ghost struct BuilderView {
    pub locations: Seq<(usize, Seq<char>)>,
    pub frames: Seq<(Seq<char>, FrameView)>,
    pub packers: Seq<TilePacker>,
    pub pages: Seq<Map<Seq<char>, (u32, u32, u32, u32)>>,
    pub page_limits: Seq<(u32, u32)>,
}

impl View for TileAtlasBuilder {
    type V = BuilderView;

    closed spec fn view(&self) -> BuilderView {
        BuilderView {
            locations: loc_view(self.locations@),
            frames: frames_view(self.frames@),
            packers: self.packers@,
            pages: self.packers@.map_values(|p: TilePacker| packer_frames(p)),
            page_limits: self.packers@.map_values(|p: TilePacker| packer_limits(p)),
        }
    }
}

impl TileAtlasBuilder {
    /// The builder's invariant: well-formed tables, frames on existing
    /// pages, and every page created at the configured capacity.
    pub open spec fn wf(self) -> bool {
        &&& table_wf(self@.locations, self@.frames)
        &&& pages_ok(self@.frames, self@.pages.len() as int)
        &&& self@.pages.len() >= 1
        &&& self@.page_limits.len() == self@.pages.len()
        &&& forall|i: int|
            0 <= i < self@.page_limits.len() ==> #[trigger] self@.page_limits[i] == (
            MAX_PAGE_W,
            MAX_PAGE_H,
            )
        &&& forall|i: int|
            0 <= i < self@.pages.len() ==> page_entries_ok(
                #[trigger] self@.pages[i],
                (MAX_PAGE_W, MAX_PAGE_H),
            ) && page_disjoint(self@.pages[i])
        &&& frames_on_pages(self@.frames, self@.pages)
    }

    /// An empty builder with one open page.
    pub fn new() -> (b: TileAtlasBuilder)
        ensures
            b.wf(),
            (b@.locations == Seq::<(usize, Seq<char>)>::empty()),
            (b@.frames == Seq::<(Seq<char>, FrameView)>::empty()),
            b@.pages.len() == 1,
    {
        let mut packers: Vec<TilePacker> = Vec::new();
        packers.push(new_packer(MAX_PAGE_W, MAX_PAGE_H));
        let b = TileAtlasBuilder { locations: Vec::new(), frames: Vec::new(), packers };
        proof {
            assert(b@.locations =~= Seq::<(usize, Seq<char>)>::empty());
            assert(b@.frames =~= Seq::<(Seq<char>, FrameView)>::empty());
            assert(b@.pages.len() == 1);
        }
        b
    }

    /// Registers the tile `index` within the frame already added for
    /// `path_str`: the frame's tile table and the atlas-wide location table
    /// each gain exactly that entry.
    pub fn add_tile(&mut self, path_str: &str, index: usize, tile_data: AtlasTile)
        requires
            old(self).wf(),
            alist_map(old(self)@.frames).contains_key(path_str@),
            !alist_map(alist_map(old(self)@.frames)[path_str@].offsets).contains_key(index),
            !alist_map(old(self)@.locations).contains_key(index),
            tile_valid(tile_data),
        ensures
            final(self).wf(),
            final(self)@.pages == old(self)@.pages,
            (alist_map(final(self)@.locations) == alist_map(old(self)@.locations).insert(
                index,
                path_str@,
            )),
            ({
                let f = alist_map(old(self)@.frames)[path_str@];
                alist_map(final(self)@.frames) == alist_map(old(self)@.frames).insert(
                    path_str@,
                    (FrameView {
                        tile_size: f.tile_size,
                        texture_idx: f.texture_idx,
                        rect: f.rect,
                        offsets: f.offsets.push((index, tile_data)),
                    }),
                )
            }),
            spec_tile_at(final(self)@.locations, final(self)@.frames, index) == tile_data,
    {
        let ghost old_frames = frames_view(self.frames@);
        let ghost old_locs = loc_view(self.locations@);
        let key = path_str.to_owned();
        let j = match find_frame(&self.frames, &key) {
            Some(j) => j,
            None => {
                proof {
                    assert(forall|i: int|
                        0 <= i < old_frames.len() ==> (#[trigger] old_frames[i]).0
                            != path_str@);
                    lemma_alist_map_absent(old_frames, path_str@);
                }
                vstd::pervasive::unreached()
            },
        };
        let ghost oldf = self.frames@[j as int].1@;
        proof {
            lemma_alist_map_index(old_frames, j as int);
            assert(old_frames[j as int] == (path_str@, oldf));
            assert(alist_map(old_frames)[path_str@] == oldf);
            lemma_alist_map_dom(oldf.offsets);
            assert(forall|i: int|
                0 <= i < oldf.offsets.len() ==> (#[trigger] oldf.offsets[i]).0 != index);
            lemma_alist_map_dom(old_locs);
            assert(forall|i: int|
                0 <= i < old_locs.len() ==> (#[trigger] old_locs[i]).0 != index);
        }
        let mut entry = self.frames.remove(j);
        entry.1.offsets.push((index, tile_data));
        self.frames.insert(j, entry);
        self.locations.push((index, key));
        proof {
            let newf = FrameView {
                tile_size: oldf.tile_size,
                texture_idx: oldf.texture_idx,
                rect: oldf.rect,
                offsets: oldf.offsets.push((index, tile_data)),
            };
            assert(frames_view(self.frames@) =~= old_frames.update(j as int, (path_str@, newf)));
            lemma_alist_map_update(old_frames, j as int, newf);
            assert(alist_map(frames_view(self.frames@)) == alist_map(old_frames).insert(
                path_str@,
                newf,
            ));
            assert(loc_view(self.locations@) =~= old_locs.push((index, path_str@)));
            lemma_alist_map_push(old_locs, index, path_str@);
            lemma_alist_map_push(oldf.offsets, index, tile_data);

            let locs2 = self@.locations;
            let frames2 = self@.frames;
            // uniqueness of the updated tables
            assert(alist_unique(locs2));
            assert(forall|i: int|
                0 <= i < frames2.len() ==> (#[trigger] frames2[i]).0 == old_frames[i].0);
            assert(alist_unique(frames2));
            // each frame still well-formed
            assert forall|i: int| 0 <= i < frames2.len() implies frame_view_wf(
                (#[trigger] frames2[i]).1,
            ) by {
                if i == j as int {
                    assert(frames2[i].1 == newf);
                    assert(alist_unique(newf.offsets)) by {
                        assert(forall|a: int|
                            0 <= a < oldf.offsets.len() ==> #[trigger] newf.offsets[a]
                                == oldf.offsets[a]);
                    }
                } else {
                    assert(frames2[i].1 == old_frames[i].1);
                }
            }
            // links still consistent
            assert forall|i: int| 0 <= i < locs2.len() implies {
                let e = #[trigger] locs2[i];
                &&& alist_map(frames2).contains_key(e.1)
                &&& alist_map(alist_map(frames2)[e.1].offsets).contains_key(e.0)
            } by {
                let e = locs2[i];
                if i < old_locs.len() {
                    assert(e == old_locs[i]);
                    if e.1 == path_str@ {
                        assert(alist_map(frames2)[e.1] == newf);
                        lemma_alist_map_dom(oldf.offsets);
                        lemma_alist_map_dom(newf.offsets);
                        let a = choose|a: int|
                            0 <= a < oldf.offsets.len() && #[trigger] oldf.offsets[a].0 == e.0;
                        assert(newf.offsets[a].0 == e.0);
                    }
                } else {
                    assert(e == (index, path_str@));
                    assert(alist_map(frames2)[path_str@] == newf);
                    assert(newf.offsets.last().0 == index);
                    lemma_alist_map_dom(newf.offsets);
                }
            }
            // pages untouched
            assert(self@.pages =~= old(self)@.pages);
            // the registered tile resolves to the inserted data
            lemma_alist_map_push(old_locs, index, path_str@);
            assert(alist_map(locs2)[index] == path_str@);
            assert(spec_frame_at(locs2, frames2, index) == newf);
            assert(alist_map(newf.offsets)[index] == tile_data);
        }
    }

    /// Whether a frame already exists for `key`.
    pub fn has_frame(&self, key: &str) -> (b: bool)
        ensures
            b == alist_map(self@.frames).contains_key(key@),
    {
        let k = key.to_owned();
        match find_frame(&self.frames, &k) {
            Some(i) => {
                proof {
                    lemma_alist_map_dom(self@.frames);
                    assert(self@.frames[i as int].0 == key@);
                }
                true
            },
            None => {
                proof {
                    lemma_alist_map_absent(self@.frames, key@);
                }
                false
            },
        }
    }

    /// Whether a tile index is already registered anywhere in the atlas.
    pub fn has_tile_index(&self, index: usize) -> (b: bool)
        ensures
            b == alist_map(self@.locations).contains_key(index),
    {
        match find_location(&self.locations, index) {
            Some(i) => {
                proof {
                    lemma_alist_map_dom(self@.locations);
                    assert(self@.locations[i as int].0 == index);
                }
                true
            },
            None => {
                proof {
                    lemma_alist_map_absent(self@.locations, index);
                }
                false
            },
        }
    }

    /// Whether the frame for `key` already hosts tile `index`.
    pub fn frame_has_tile(&self, key: &str, index: usize) -> (b: bool)
        requires
            alist_map(self@.frames).contains_key(key@),
            alist_unique(self@.frames),
        ensures
            b == alist_map(alist_map(self@.frames)[key@].offsets).contains_key(index),
    {
        let k = key.to_owned();
        let j = match find_frame(&self.frames, &k) {
            Some(j) => j,
            None => {
                proof {
                    lemma_alist_map_absent(self@.frames, key@);
                }
                vstd::pervasive::unreached()
            },
        };
        proof {
            lemma_alist_map_index(self@.frames, j as int);
        }
        match find_tile(&self.frames[j].1.offsets, index) {
            Some(i) => {
                proof {
                    let offs = alist_map(self@.frames)[key@].offsets;
                    lemma_alist_map_dom(offs);
                    assert(offs[i as int].0 == index);
                }
                true
            },
            None => {
                proof {
                    lemma_alist_map_absent(alist_map(self@.frames)[key@].offsets, index);
                }
                false
            },
        }
    }

    /// Adds a frame for `path_string`, packing its image first-fit: each
    /// existing page is tried in creation order, and only if none has room
    /// is a new page opened. Adding a key that already has a frame is a
    /// no-op; an image with a zero dimension, wider than a page, or not
    /// strictly shorter than a page is rejected; any accepted image is
    /// placed (a fresh page always takes it), and nothing changes on
    /// failure.
    pub fn add_frame(&mut self, path_string: &str, tile_size: (u32, u32), texture: DynamicImage)
        -> (r: Result<(), AtlasError>)
        requires
            old(self).wf(),
            tile_size.0 >= 1,
            tile_size.1 >= 1,
        ensures
            final(self).wf(),
            final(self)@.locations == old(self)@.locations,
            alist_map(old(self)@.frames).contains_key(path_string@) ==> r
                == Ok::<(), AtlasError>(()) && final(self)@ == old(self)@,
            r matches Err(e) ==> final(self)@ == old(self)@ && e == AtlasError::PackingFailed,
            !alist_map(old(self)@.frames).contains_key(path_string@) ==> (r == Ok::<
                (),
                AtlasError,
            >(()) <==> {
                &&& 1 <= image_dims(texture).0 <= MAX_PAGE_W
                &&& 1 <= image_dims(texture).1
                &&& image_dims(texture).1 + 1 <= MAX_PAGE_H
            }),
            (r == Ok::<(), AtlasError>(()) && !alist_map(old(self)@.frames).contains_key(
                path_string@,
            )) ==> {
                &&& exists|f: FrameView|
                    {
                        &&& #[trigger] alist_map(old(self)@.frames).insert(path_string@, f)
                            == alist_map(final(self)@.frames)
                        &&& f.tile_size == tile_size
                        &&& f.offsets == Seq::<(usize, AtlasTile)>::empty()
                        &&& f.texture_idx < final(self)@.pages.len()
                        &&& f.rect.w == image_dims(texture).0
                        &&& f.rect.h == image_dims(texture).1
                        &&& f.rect.x + f.rect.w <= MAX_PAGE_W
                        &&& f.rect.y + f.rect.h <= MAX_PAGE_H
                        &&& final(self)@.pages[f.texture_idx as int].contains_key(path_string@)
                        &&& (f.texture_idx < old(self)@.packers.len() ==> packer_fits(
                            old(self)@.packers[f.texture_idx as int],
                            image_dims(texture).0,
                            image_dims(texture).1,
                        ))
                        &&& forall|q: int|
                            0 <= q < f.texture_idx ==> !packer_fits(
                                #[trigger] old(self)@.packers[q],
                                image_dims(texture).0,
                                image_dims(texture).1,
                            )
                        &&& forall|p: int|
                            0 <= p < final(self)@.pages.len() && p != f.texture_idx ==> p < old(
                                self,
                            )@.pages.len() && #[trigger] final(self)@.pages[p] == old(
                                self,
                            )@.pages[p]
                    }
                &&& old(self)@.pages.len() <= final(self)@.pages.len() <= old(self)@.pages.len() + 1
            },
    {
        let ghost old_frames = frames_view(self.frames@);
        let key = path_string.to_owned();
        if let Some(fi) = find_frame(&self.frames, &key) {
            proof {
                assert(old_frames[fi as int].0 == path_string@);
                lemma_alist_map_dom(old_frames);
            }
            return Ok(());
        }
        proof {
            lemma_alist_map_absent(old_frames, path_string@);
        }
        let dims = image_dimensions(&texture);
        if dims.0 < 1 || dims.1 < 1 || dims.0 > MAX_PAGE_W || dims.1 >= MAX_PAGE_H {
            return Err(AtlasError::PackingFailed);
        }
        let n = self.packers.len();
        let mut i: usize = 0;
        while i < n
            invariant
                n == self.packers@.len(),
                i <= n,
                self.locations == old(self).locations,
                self.frames == old(self).frames,
                self.packers@ =~= old(self).packers@,
                self@.pages =~= old(self)@.pages,
                self@.page_limits =~= old(self)@.page_limits,
                old(self).wf(),
                frames_view(self.frames@) == old_frames,
                !alist_map(old_frames).contains_key(path_string@),
                forall|j: int| 0 <= j < old_frames.len() ==> (#[trigger] old_frames[j]).0 != path_string@,
                tile_size.0 >= 1,
                tile_size.1 >= 1,
                key@ == path_string@,
                dims == image_dims(texture),
                1 <= dims.0 <= MAX_PAGE_W,
                1 <= dims.1,
                dims.1 + 1 <= MAX_PAGE_H,
                forall|q: int|
                    0 <= q < i ==> !packer_fits(
                        #[trigger] old(self)@.packers[q],
                        dims.0,
                        dims.1,
                    ),
            decreases n - i,
        {
            let ghost pages0 = self@.pages;
            let ghost lim_pre = self@.page_limits;
            let mut p = self.packers.remove(i);
            let ghost p_pre = p;
            let ghost page_i = packer_frames(p);
            proof {
                assert(p_pre == old(self)@.packers[i as int]);
                assert(lim_pre[i as int] == packer_limits(p));
                assert(old(self)@.page_limits[i as int] == (MAX_PAGE_W, MAX_PAGE_H));
                assert(packer_limits(p) == (MAX_PAGE_W, MAX_PAGE_H));
            }
            let ok = packer_insert(&mut p, key.clone(), clone_image(&texture));
            if ok {
                let rect = match packer_rect(&p, &key) {
                    Some(rect) => rect,
                    None => vstd::pervasive::unreached(),
                };
                proof {
                    let r0 = choose|r: (u32, u32, u32, u32)|
                        #![trigger page_i.insert(key@, r)]
                        {
                            &&& packer_frames(p) == page_i.insert(key@, r)
                            &&& r.2 == dims.0
                            &&& r.3 == dims.1
                            &&& r.0 + r.2 <= MAX_PAGE_W
                            &&& r.1 + r.3 <= MAX_PAGE_H
                            &&& forall|k: Seq<char>|
                                k != key@ && page_i.contains_key(k) ==> rects_disjoint(
                                    r,
                                    #[trigger] page_i[k],
                                )
                        };
                    assert(packer_frames(p)[key@] == r0);
                    assert((rect.x, rect.y, rect.w, rect.h) == r0);
                    assert(packer_fits(p_pre, dims.0, dims.1));
                }
                self.packers.insert(i, p);
                let frame = AtlasFrame::new(i, rect, tile_size);
                let ghost fr_pre = self.frames@;
                let ghost fv = frame@;
                let ghost entry: (String, AtlasFrame) = (key, frame);
                self.frames.push((key, frame));
                proof {
                    assert(self@.page_limits =~= old(self)@.page_limits);
                    assert(self@.pages.len() == old(self)@.pages.len());
                    assert(fr_pre == old(self).frames@);
                    assert(entry.0@ == path_string@);
                    assert(entry.1@ == fv);
                    lemma_frames_view_push(fr_pre, entry);
                    assert(self.frames@ == fr_pre.push(entry));
                    assert(frames_view(self.frames@) =~~= old_frames.push((path_string@, fv)));
                    assert(self@.pages =~= pages0.update(i as int, packer_frames(p)));
                    assert(self@.pages[i as int] == page_i.insert(
                        path_string@,
                        (fv.rect.x, fv.rect.y, fv.rect.w, fv.rect.h),
                    ));
                    assert(self@.pages[i as int].contains_key(path_string@));
                    assert(forall|q: int|
                        0 <= q < self@.pages.len() && q != i ==> #[trigger] self@.pages[q]
                            == old(self)@.pages[q]);
                    assert(page_i == old(self)@.pages[i as int]);
                    self.lemma_new_frame(*old(self), old_frames, path_string@, fv, i as int, self@.pages);
                    assert(alist_map(old(self)@.frames).insert(path_string@, fv) == alist_map(
                        self@.frames,
                    ));
                }
                return Ok(());
            }
            self.packers.insert(i, p);
            proof {
                assert(p == p_pre);
                assert(self.packers@ =~= old(self).packers@);
                assert(self@.pages =~= pages0);
                assert(self@.page_limits =~= lim_pre);
                assert(!packer_fits(old(self)@.packers[i as int], dims.0, dims.1));
            }
            i += 1;
        }
        // no existing page had room: open a new one
        let idx = self.packers.len();
        let mut p = new_packer(MAX_PAGE_W, MAX_PAGE_H);
        let ghost page_new = packer_frames(p);
        let ok = packer_insert(&mut p, key.clone(), clone_image(&texture));
        if !ok {
            proof {
                assert(false);
            }
            return Err(AtlasError::PackingFailed);
        }
        let rect = match packer_rect(&p, &key) {
            Some(rect) => rect,
            None => vstd::pervasive::unreached(),
        };
        proof {
            let r0 = choose|r: (u32, u32, u32, u32)|
                #![trigger page_new.insert(key@, r)]
                {
                    &&& packer_frames(p) == page_new.insert(key@, r)
                    &&& r.2 == dims.0
                    &&& r.3 == dims.1
                    &&& r.0 + r.2 <= MAX_PAGE_W
                    &&& r.1 + r.3 <= MAX_PAGE_H
                    &&& forall|k: Seq<char>|
                        k != key@ && page_new.contains_key(k) ==> rects_disjoint(
                            r,
                            #[trigger] page_new[k],
                        )
                };
            assert(packer_frames(p)[key@] == r0);
            assert((rect.x, rect.y, rect.w, rect.h) == r0);
        }
        let ghost pages0 = self@.pages;
        let ghost lim0 = self@.page_limits;
        let ghost pv = packer_frames(p);
        let ghost pl = packer_limits(p);
        self.packers.push(p);
        let frame = AtlasFrame::new(idx, rect, tile_size);
        let ghost fr_pre = self.frames@;
        let ghost fv = frame@;
        let ghost entry: (String, AtlasFrame) = (key, frame);
        self.frames.push((key, frame));
        proof {
            assert(pages0 =~= old(self)@.pages);
            assert(lim0 =~= old(self)@.page_limits);
            assert(self@.pages =~= pages0.push(pv));
            assert(self@.page_limits =~= lim0.push(pl));
            assert(self@.pages[idx as int].contains_key(path_string@));
            assert(forall|q: int|
                0 <= q < self@.pages.len() && q != idx ==> q < old(self)@.pages.len()
                    && #[trigger] self@.pages[q] == old(self)@.pages[q]);
            assert(fr_pre == old(self).frames@);
            assert(entry.0@ == path_string@);
            assert(entry.1@ == fv);
            lemma_frames_view_push(fr_pre, entry);
            assert(self.frames@ == fr_pre.push(entry));
            assert(frames_view(self.frames@) =~~= old_frames.push((path_string@, fv)));
            assert(self@.pages[idx as int] == page_new.insert(
                path_string@,
                (fv.rect.x, fv.rect.y, fv.rect.w, fv.rect.h),
            ));
            assert(page_new =~= Map::<Seq<char>, (u32, u32, u32, u32)>::empty());
            self.lemma_new_frame(*old(self), old_frames, path_string@, fv, idx as int, self@.pages);
            assert(alist_map(old(self)@.frames).insert(path_string@, fv) == alist_map(
                self@.frames,
            ));
        }
        Ok(())
    }

    /// Pushing one fresh, empty, well-placed frame preserves the invariant
    /// and inserts exactly that frame; its rectangle lands, under its key,
    /// on its page, clear of everything already there.
    proof fn lemma_new_frame(
        self,
        prev: TileAtlasBuilder,
        old_frames: Seq<(Seq<char>, FrameView)>,
        keyv: Seq<char>,
        f: FrameView,
        page: int,
        pages: Seq<Map<Seq<char>, (u32, u32, u32, u32)>>,
    )
        requires
            table_wf(prev@.locations, prev@.frames),
            pages_ok(prev@.frames, prev@.pages.len() as int),
            frames_on_pages(prev@.frames, prev@.pages),
            forall|q: int|
                0 <= q < prev@.pages.len() ==> page_entries_ok(
                    #[trigger] prev@.pages[q],
                    (MAX_PAGE_W, MAX_PAGE_H),
                ) && page_disjoint(prev@.pages[q]),
            old_frames == prev@.frames,
            !alist_map(old_frames).contains_key(keyv),
            forall|j: int| 0 <= j < old_frames.len() ==> (#[trigger] old_frames[j]).0 != keyv,
            self@.locations == prev@.locations,
            self@.frames =~= old_frames.push((keyv, f)),
            self@.pages == pages,
            prev@.pages.len() <= pages.len(),
            0 <= page < pages.len(),
            f.texture_idx == page,
            f.offsets == Seq::<(usize, AtlasTile)>::empty(),
            f.tile_size.0 >= 1,
            f.tile_size.1 >= 1,
            1 <= f.rect.w,
            1 <= f.rect.h,
            f.rect.x + f.rect.w <= MAX_PAGE_W,
            f.rect.y + f.rect.h <= MAX_PAGE_H,
            forall|q: int|
                0 <= q < pages.len() && q != page ==> q < prev@.pages.len()
                    && #[trigger] pages[q] == prev@.pages[q],
            page < prev@.pages.len() ==> pages[page] == prev@.pages[page].insert(
                keyv,
                (f.rect.x, f.rect.y, f.rect.w, f.rect.h),
            ),
            page >= prev@.pages.len() ==> pages[page] == Map::<
                Seq<char>,
                (u32, u32, u32, u32),
            >::empty().insert(keyv, (f.rect.x, f.rect.y, f.rect.w, f.rect.h)),
            page < prev@.pages.len() ==> forall|k: Seq<char>|
                k != keyv && #[trigger] prev@.pages[page].contains_key(k) ==> rects_disjoint(
                    (f.rect.x, f.rect.y, f.rect.w, f.rect.h),
                    prev@.pages[page][k],
                ),
        ensures
            table_wf(self@.locations, self@.frames),
            pages_ok(self@.frames, self@.pages.len() as int),
            frames_on_pages(self@.frames, pages),
            forall|q: int|
                0 <= q < pages.len() ==> page_entries_ok(
                    #[trigger] pages[q],
                    (MAX_PAGE_W, MAX_PAGE_H),
                ) && page_disjoint(pages[q]),
            (alist_map(self@.frames) == alist_map(old_frames).insert(keyv, f)),
    {
        let frames2 = self@.frames;
        let rt = (f.rect.x, f.rect.y, f.rect.w, f.rect.h);
        lemma_alist_map_push(old_frames, keyv, f);
        assert(alist_map(frames2) == alist_map(old_frames).insert(keyv, f));
        assert(alist_unique(frames2));
        assert forall|i: int| 0 <= i < frames2.len() implies frame_view_wf(
            (#[trigger] frames2[i]).1,
        ) by {
            if i < old_frames.len() {
                assert(frames2[i] == old_frames[i]);
            } else {
                assert(frames2[i].1 == f);
            }
        }
        assert forall|i: int| 0 <= i < self@.locations.len() implies {
            let e = #[trigger] self@.locations[i];
            &&& alist_map(frames2).contains_key(e.1)
            &&& alist_map(alist_map(frames2)[e.1].offsets).contains_key(e.0)
        } by {
            let e = self@.locations[i];
            assert(alist_map(old_frames).contains_key(e.1));
            assert(e.1 != keyv);
            assert(alist_map(frames2)[e.1] == alist_map(old_frames)[e.1]);
        }
        assert forall|i: int| 0 <= i < frames2.len() implies (#[trigger] frames2[i]).1.texture_idx
            < pages.len() by {
            if i < old_frames.len() {
                assert(frames2[i] == old_frames[i]);
                assert(old_frames[i].1.texture_idx < prev@.pages.len());
            } else {
                assert(frames2[i].1 == f);
            }
        }
        assert forall|q: int| 0 <= q < pages.len() implies page_entries_ok(
            #[trigger] pages[q],
            (MAX_PAGE_W, MAX_PAGE_H),
        ) && page_disjoint(pages[q]) by {
            if q != page {
                assert(pages[q] == prev@.pages[q]);
            } else if page < prev@.pages.len() {
                let base = prev@.pages[page];
                assert(pages[page] == base.insert(keyv, rt));
                assert forall|k: Seq<char>| pages[page].contains_key(k) implies {
                    let v = #[trigger] pages[page][k];
                    &&& 1 <= v.2
                    &&& 1 <= v.3
                    &&& v.0 + v.2 <= MAX_PAGE_W
                    &&& v.1 + v.3 <= MAX_PAGE_H
                } by {
                    if k != keyv {
                        assert(base.contains_key(k) && pages[page][k] == base[k]);
                    }
                }
                assert forall|k1: Seq<char>, k2: Seq<char>|
                    k1 != k2 && pages[page].contains_key(k1) && pages[page].contains_key(
                        k2,
                    ) implies rects_disjoint(
                    #[trigger] pages[page][k1],
                    #[trigger] pages[page][k2],
                ) by {
                    if k1 == keyv {
                        assert(base.contains_key(k2) && pages[page][k2] == base[k2]);
                        assert(rects_disjoint(rt, base[k2]));
                    } else if k2 == keyv {
                        assert(base.contains_key(k1) && pages[page][k1] == base[k1]);
                        assert(rects_disjoint(rt, base[k1]));
                    } else {
                        assert(base.contains_key(k1) && base.contains_key(k2));
                    }
                }
            } else {
                assert forall|k: Seq<char>| pages[page].contains_key(k) implies k == keyv by {}
            }
        }
        assert forall|j: int| 0 <= j < frames2.len() implies {
            let e = #[trigger] frames2[j];
            &&& e.1.texture_idx < pages.len()
            &&& pages[e.1.texture_idx as int].contains_key(e.0)
            &&& pages[e.1.texture_idx as int][e.0] == (
                e.1.rect.x,
                e.1.rect.y,
                e.1.rect.w,
                e.1.rect.h,
            )
        } by {
            if j < old_frames.len() {
                let e = old_frames[j];
                assert(frames2[j] == e);
                assert(e.0 != keyv);
                if e.1.texture_idx == page {
                    assert(page < prev@.pages.len());
                    assert(pages[page] == prev@.pages[page].insert(keyv, rt));
                    assert(pages[page][e.0] == prev@.pages[page][e.0]);
                } else {
                    assert(pages[e.1.texture_idx as int] == prev@.pages[e.1.texture_idx as int]);
                }
            } else {
                assert(frames2[j] == (keyv, f));
            }
        }
    }

    /// Freezes the tables and renders every page: the built atlas carries
    /// exactly the builder's location and frame tables, one finished page
    /// per packer page. A builder whose every page holds at least one frame
    /// always builds.
    pub fn build(&self) -> (r: Result<TileAtlas, AtlasError>)
        requires
            self.wf(),
        ensures
            match r {
                Ok(a) => {
                    &&& a.wf()
                    &&& a@.locations == self@.locations
                    &&& a@.frames == self@.frames
                    &&& a@.page_dims.len() == self@.pages.len()
                },
                Err(e) => e == AtlasError::ExportFailed,
            },
            (forall|i: int| 0 <= i < self@.pages.len() ==> page_nonempty(#[trigger] self@.pages[i]))
                ==> r is Ok,
    {
        let mut pages: Vec<AtlasPage> = Vec::new();
        let mut i: usize = 0;
        while i < self.packers.len()
            invariant
                i <= self.packers@.len(),
                pages@.len() == i,
                self.wf(),
            decreases self.packers@.len() - i,
        {
            proof {
                assert(self@.pages[i as int] == packer_frames(self.packers@[i as int]));
                assert(self@.page_limits[i as int] == packer_limits(self.packers@[i as int]));
                assert(self@.page_limits[i as int] == (MAX_PAGE_W, MAX_PAGE_H));
                assert(page_entries_ok(
                    packer_frames(self.packers@[i as int]),
                    (MAX_PAGE_W, MAX_PAGE_H),
                ));
            }
            let img = match packer_export(&self.packers[i]) {
                Some(img) => img,
                None => {
                    proof {
                        assert(!page_nonempty(self@.pages[i as int]));
                    }
                    return Err(AtlasError::ExportFailed);
                },
            };
            pages.push(AtlasPage::from_image(img));
            i += 1;
        }
        let atlas = TileAtlas {
            locations: clone_locations(&self.locations),
            frames: clone_frames(&self.frames),
            textures: pages,
        };
        proof {
            assert(atlas@.locations =~= self@.locations);
            assert(atlas@.frames == frames_view(self.frames@));
            assert(atlas@.page_dims.len() == self@.pages.len());
        }
        Ok(atlas)
    }
}

/// The exact texture-cell answer of the resolver: the tile's current cell
/// index pair and the page's per-axis cell count; the normalized offset in
/// texture space is `(num_x / den_x, num_y / den_y)`.
#[derive(Clone, Copy, Debug, PartialEq, Eq, Structural)]
pub struct TextureOffset {
    pub num_x: u64,
    pub num_y: u64,
    pub den_x: u64,
    pub den_y: u64,
}

/// The built, immutable atlas: location and frame tables plus finished
/// pages.
pub struct TileAtlas {
    locations: Vec<(usize, String)>,
    frames: Vec<(String, AtlasFrame)>,
    textures: Vec<AtlasPage>,
}

/// The mathematical content of a built atlas.
#[verifier::ext_equal]
pub ghost struct AtlasView {
    pub locations: Seq<(usize, Seq<char>)>,
    pub frames: Seq<(Seq<char>, FrameView)>,
    pub page_dims: Seq<(u32, u32)>,
}

impl View for TileAtlas {
    type V = AtlasView;

    closed spec fn view(&self) -> AtlasView {
        AtlasView {
            locations: loc_view(self.locations@),
            frames: frames_view(self.frames@),
            page_dims: self.textures@.map_values(|p: AtlasPage| (p.width, p.height)),
        }
    }
}

impl TileAtlas {
    /// The atlas's invariant.
    pub open spec fn wf(self) -> bool {
        &&& table_wf(self@.locations, self@.frames)
        &&& pages_ok(self@.frames, self@.page_dims.len() as int)
    }

    /// An atlas assembled from already-validated tables and finished pages.
    pub fn new(
        locations: Vec<(usize, String)>,
        frames: Vec<(String, AtlasFrame)>,
        textures: Vec<AtlasPage>,
    ) -> (a: TileAtlas)
        requires
            table_wf(loc_view(locations@), frames_view(frames@)),
            pages_ok(frames_view(frames@), textures@.len() as int),
        ensures
            a.wf(),
            a@.locations == loc_view(locations@),
            a@.frames == frames_view(frames@),
            (a@.page_dims == textures@.map_values(|p: AtlasPage| (p.width, p.height))),
    {
        TileAtlas { locations, frames, textures }
    }

    /// The frame hosting a registered tile index.
    fn get_frame(&self, tile_type: usize) -> (f: &AtlasFrame)
        requires
            self.wf(),
            spec_has_tile(self@.locations, tile_type),
        ensures
            f@ == spec_frame_at(self@.locations, self@.frames, tile_type),
    {
        proof {
            lemma_resolve_wf(self@.locations, self@.frames, tile_type);
        }
        let i = match find_location(&self.locations, tile_type) {
            Some(i) => i,
            None => {
                proof {
                    lemma_alist_map_absent(self@.locations, tile_type);
                }
                vstd::pervasive::unreached()
            },
        };
        proof {
            lemma_alist_map_index(self@.locations, i as int);
        }
        let key = &self.locations[i].1;
        let j = match find_frame(&self.frames, key) {
            Some(j) => j,
            None => {
                proof {
                    lemma_alist_map_absent(self@.frames, key@);
                }
                vstd::pervasive::unreached()
            },
        };
        proof {
            lemma_alist_map_index(self@.frames, j as int);
        }
        &self.frames[j].1
    }

    /// The tile data a registered tile index resolves to.
    fn get_tile(&self, tile_type: usize) -> (t: AtlasTile)
        requires
            self.wf(),
            spec_has_tile(self@.locations, tile_type),
        ensures
            t == spec_tile_at(self@.locations, self@.frames, tile_type),
            tile_valid(t),
    {
        proof {
            lemma_resolve_wf(self@.locations, self@.frames, tile_type);
        }
        let frame = self.get_frame(tile_type);
        let k = match find_tile(&frame.offsets, tile_type) {
            Some(k) => k,
            None => {
                proof {
                    lemma_alist_map_absent(frame@.offsets, tile_type);
                }
                vstd::pervasive::unreached()
            },
        };
        proof {
            lemma_alist_map_index(frame@.offsets, k as int);
        }
        frame.offsets[k].1
    }

    /// Which page the tile's frame was packed onto.
    pub fn get_tile_texture_idx(&self, tile_type: usize) -> (r: usize)
        requires
            self.wf(),
            spec_has_tile(self@.locations, tile_type),
        ensures
            r == spec_frame_at(self@.locations, self@.frames, tile_type).texture_idx,
    {
        self.get_frame(tile_type).texture_idx
    }

    /// The pixel size of one grid cell of the tile's frame.
    pub fn get_tile_texture_size(&self, tile_type: usize) -> (r: (u32, u32))
        requires
            self.wf(),
            spec_has_tile(self@.locations, tile_type),
        ensures
            r == spec_frame_at(self@.locations, self@.frames, tile_type).tile_size,
    {
        self.get_frame(tile_type).tile_size
    }

    /// How many tilemap cells of the fixed 24-pixel grid fit on page
    /// `texture_idx` per axis; the normalized cell size is the reciprocal
    /// pair.
    pub fn get_tilemap_tex_ratio(&self, texture_idx: usize) -> (r: (u32, u32))
        requires
            texture_idx < self@.page_dims.len(),
        ensures
            r.0 == self@.page_dims[texture_idx as int].0 / 24,
            r.1 == self@.page_dims[texture_idx as int].1 / 24,
    {
        let page = &self.textures[texture_idx];
        (page.width / 24, page.height / 24)
    }

    /// How many of the tile's sampling cells fit on its page per axis; the
    /// normalized cell size is the reciprocal pair.
    pub fn get_sprite_tex_ratio(&self, tile_type: usize) -> (r: (u32, u32))
        requires
            self.wf(),
            resolve_ok(self@.locations, self@.frames, self@.page_dims, tile_type),
        ensures
            ({
                let f = spec_frame_at(self@.locations, self@.frames, tile_type);
                let t = spec_tile_at(self@.locations, self@.frames, tile_type);
                (r.0 as int, r.1 as int) == spec_grid_cells(
                    self@.page_dims[f.texture_idx as int],
                    spec_effective_tile_size(f.tile_size, t.is_autotile),
                )
            }),
    {
        let frame = self.get_frame(tile_type);
        let tile = self.get_tile(tile_type);
        let mut sx = frame.tile_size.0;
        let mut sy = frame.tile_size.1;
        if tile.is_autotile {
            sx = sx / 2;
            sy = sy / 2;
        }
        let page = &self.textures[frame.texture_idx];
        (page.width / sx, page.height / sy)
    }

    /// Whether the resolver is defined for this index: it is registered,
    /// its sampling unit is at least one pixel, and its page holds at least
    /// one sampling cell per axis.
    pub fn can_resolve(&self, tile_type: usize) -> (b: bool)
        requires
            self.wf(),
        ensures
            b == resolve_ok(self@.locations, self@.frames, self@.page_dims, tile_type),
    {
        let registered = match find_location(&self.locations, tile_type) {
            Some(i) => {
                proof {
                    lemma_alist_map_dom(self@.locations);
                    assert(self@.locations[i as int].0 == tile_type);
                }
                true
            },
            None => {
                proof {
                    lemma_alist_map_absent(self@.locations, tile_type);
                }
                false
            },
        };
        if !registered {
            return false;
        }
        proof {
            lemma_resolve_wf(self@.locations, self@.frames, tile_type);
            lemma_resolve_page(
                self@.locations,
                self@.frames,
                self@.page_dims.len() as int,
                tile_type,
            );
            assert(self@.page_dims.len() == self.textures@.len());
        }
        let frame = self.get_frame(tile_type);
        let tile = self.get_tile(tile_type);
        let mut ew = frame.tile_size.0;
        let mut eh = frame.tile_size.1;
        if tile.is_autotile {
            ew = ew / 2;
            eh = eh / 2;
        }
        if ew < 1 || eh < 1 {
            return false;
        }
        let page = &self.textures[frame.texture_idx];
        page.width >= ew && page.height >= eh
    }

    /// The tile's exact texture-cell offset at time `msecs`: the current
    /// cell index (animation applied) over the page's cell count.
    pub fn get_texture_offset(&self, tile_type: usize, msecs: u64) -> (r: TextureOffset)
        requires
            self.wf(),
            resolve_ok(self@.locations, self@.frames, self@.page_dims, tile_type),
        ensures
            ({
                let o = spec_texture_offset(
                    self@.locations,
                    self@.frames,
                    self@.page_dims,
                    tile_type,
                    msecs,
                );
                &&& (r.num_x as int, r.num_y as int) == o.0
                &&& (r.den_x as int, r.den_y as int) == o.1
            }),
    {
        proof {
            lemma_resolve_wf(self@.locations, self@.frames, tile_type);
        }
        let frame = self.get_frame(tile_type);
        let tile = self.get_tile(tile_type);
        let add = get_add_offset(&frame.rect, &frame.tile_size);
        let mut eff_w = frame.tile_size.0;
        let mut eff_h = frame.tile_size.1;
        let m: u64 = if tile.is_autotile {
            2
        } else {
            1
        };
        if tile.is_autotile {
            eff_w = eff_w / 2;
            eff_h = eff_h / 2;
        }
        let page = &self.textures[frame.texture_idx];
        let den_x = (page.width / eff_w) as u64;
        let den_y = (page.height / eff_h) as u64;
        let cf: u64 = match tile.tile_kind {
            TileKind::Static => 0,
            TileKind::Animated(fc, d) => (msecs / d) % fc,
        };
        proof {
            assert(cf <= 0xFFFF_FFFFu64);
            assert(m == 1 || m == 2);
        }
        let num_x = (tile.offset.0 as u64 + add.0 as u64) * m + cf * m;
        let num_y = (tile.offset.1 as u64 + add.1 as u64) * m;
        TextureOffset { num_x, num_y, den_x, den_y }
    }

    /// The finished page at `idx`.
    pub fn get_texture(&self, idx: usize) -> (r: &AtlasPage)
        requires
            idx < self@.page_dims.len(),
        ensures
            (r.width, r.height) == self@.page_dims[idx as int],
    {
        &self.textures[idx]
    }

    /// How many pages the atlas holds.
    pub fn passes(&self) -> (r: usize)
        ensures
            r == self@.page_dims.len(),
    {
        self.textures.len()
    }

    /// Read access to the location table, for persisting.
    pub fn locations(&self) -> (r: &Vec<(usize, String)>)
        ensures
            loc_view(r@) == self@.locations,
    {
        &self.locations
    }

    /// Read access to the frame table, for persisting.
    pub fn frames(&self) -> (r: &Vec<(String, AtlasFrame)>)
        ensures
            frames_view(r@) == self@.frames,
    {
        &self.frames
    }
}

/// Tiles survive `build` unchanged: when an atlas carries a builder's
/// tables, as `build` ensures, every index registered in the builder is
/// registered in the atlas and resolves to exactly the tile data and frame
/// that the builder recorded.
pub proof fn lemma_build_keeps_tiles(b: TileAtlasBuilder, a: TileAtlas, idx: usize)
    requires
        a@.locations == b@.locations,
        a@.frames == b@.frames,
        spec_has_tile(b@.locations, idx),
    ensures
        spec_has_tile(a@.locations, idx),
        spec_tile_at(a@.locations, a@.frames, idx) == spec_tile_at(b@.locations, b@.frames, idx),
        spec_frame_at(a@.locations, a@.frames, idx) == spec_frame_at(
            b@.locations,
            b@.frames,
            idx,
        ),
{
}

/// Reloading persisted metadata preserves the resolver: two atlases with
/// equal tables and equal page sizes answer every texture-offset query
/// identically, at every tile index and every time.
pub proof fn lemma_reuse_preserves_offsets(a: TileAtlas, b: TileAtlas, idx: usize, msecs: u64)
    requires
        a@.locations == b@.locations,
        a@.frames == b@.frames,
        a@.page_dims == b@.page_dims,
    ensures
        (spec_texture_offset(a@.locations, a@.frames, a@.page_dims, idx, msecs)
            == spec_texture_offset(b@.locations, b@.frames, b@.page_dims, idx, msecs)),
        resolve_ok(a@.locations, a@.frames, a@.page_dims, idx) == resolve_ok(
            b@.locations,
            b@.frames,
            b@.page_dims,
            idx,
        ),
{
}

} // verus!
