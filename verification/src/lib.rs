//! A tile atlas: variable-size source images are packed onto fixed-capacity
//! texture pages, and logical tile indices are mapped to packed rectangles,
//! animation metadata and exact texture-coordinate cells.
use vstd::prelude::*;

mod alist;
mod pack;
mod tile_atlas;
mod texture_atlas;
mod codec;
mod tile_atlas_config;

pub use pack::{
    TilePacker, AtlasPage, packer_frames, packer_limits, packer_fits, image_dims, rects_disjoint,
    page_entries_ok, page_disjoint, page_nonempty,
};
pub use alist::{alist_map, alist_unique};
pub use tile_atlas::{
    TileKind, AtlasTile, AtlasFrame, FrameView, AtlasError, get_add_offset, TileAtlas,
    TileAtlasBuilder, AtlasView, BuilderView, TextureOffset,
};
pub use texture_atlas::{TextureAtlas, TextureAtlasBuilder};
pub use tile_atlas_config::{
    TileAtlasConfig, ConfigView, CacheDecision, get_config_cache_path, content_hash, digest_of,
    check_cache, encode_config, decode_config, spec_decision, lemma_unchanged_text_reuses,
    lemma_hash_mismatch_rebuilds,
};
pub use tile_atlas::{
    spec_has_tile, spec_frame_at, spec_tile_at, spec_texture_offset, resolve_ok, table_wf,
    pages_ok, tile_valid, frame_view_wf, loc_view, frames_view, lemma_build_keeps_tiles,
    lemma_reuse_preserves_offsets, spec_ceil_div, spec_grid_offset, spec_current_frame,
    spec_cell_index, spec_grid_cells, spec_effective_tile_size, frames_on_pages,
    lemma_frames_disjoint,
};
pub use texture_atlas::{flat_key, rects_view, flat_on_page, lemma_flat_key_injective, lemma_flat_disjoint};
pub use tile_atlas_config::is_hex_char;
pub use codec::{spec_encode_config, spec_decode_config, lemma_config_round_trip};

verus! {

/// A packed rectangle in page-pixel space: `x`, `y` is the top-left corner,
/// `w`, `h` the extent. A frame's rect exactly bounds its source image.
#[derive(Clone, Copy, Debug, PartialEq, Eq, Structural)]
pub struct AtlasRect {
    pub x: u32,
    pub y: u32,
    pub w: u32,
    pub h: u32,
}

} // verus!
