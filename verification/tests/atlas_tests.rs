use tile_atlas::{
    AtlasFrame, AtlasPage, AtlasRect, AtlasTile, AtlasError, TileAtlas, TileAtlasBuilder,
    TileKind, get_add_offset,
};

fn page(w: u32, h: u32) -> AtlasPage {
    AtlasPage { image: image::DynamicImage::new_rgba8(w, h), width: w, height: h }
}

fn one_tile_atlas(tile: AtlasTile, tile_size: (u32, u32), rect: AtlasRect, pw: u32, ph: u32) -> TileAtlas {
    let config = tile_atlas::TileAtlasConfig {
        locations: vec![(0usize, String::from("a.png"))],
        frames: vec![(
            String::from("a.png"),
            AtlasFrame { tile_size, texture_idx: 0, rect, offsets: vec![(0usize, tile)] },
        )],
        file_hash: String::from("h"),
    };
    assert!(config.validate(1));
    TileAtlas::from_config(config, vec![page(pw, ph)])
}

#[test]
fn static_tile_offset_is_origin() {
    let tile = AtlasTile { offset: (0, 0), is_autotile: false, tile_kind: TileKind::Static };
    let atlas = one_tile_atlas(
        tile,
        (24, 24),
        AtlasRect { x: 0, y: 0, w: 24, h: 24 },
        48,
        48,
    );
    for now in [0u64, 1, 250, 99999] {
        let o = atlas.get_texture_offset(0, now);
        assert_eq!((o.num_x, o.num_y), (0, 0));
        assert_eq!((o.den_x, o.den_y), (2, 2));
        let fx = o.num_x as f32 / o.den_x as f32;
        let fy = o.num_y as f32 / o.den_y as f32;
        assert_eq!((fx, fy), (0.0, 0.0));
    }
}

#[test]
fn animated_tile_advances_two_cells_at_250ms() {
    let anim = AtlasTile {
        offset: (0, 0),
        is_autotile: false,
        tile_kind: TileKind::Animated(4, 100),
    };
    let atlas = one_tile_atlas(
        anim,
        (24, 24),
        AtlasRect { x: 0, y: 0, w: 96, h: 24 },
        96,
        96,
    );
    // currentFrame = (250 / 100) % 4 = 2
    let o = atlas.get_texture_offset(0, 250);
    let stat = AtlasTile { offset: (0, 0), is_autotile: false, tile_kind: TileKind::Static };
    let atlas_s = one_tile_atlas(
        stat,
        (24, 24),
        AtlasRect { x: 0, y: 0, w: 96, h: 24 },
        96,
        96,
    );
    let os = atlas_s.get_texture_offset(0, 250);
    assert_eq!(o.num_x, os.num_x + 2);
    assert_eq!(o.num_y, os.num_y);
    assert_eq!((o.den_x, o.den_y), (4, 4));
}

#[test]
fn autotile_samples_in_halved_units() {
    // nominal tile size (48,48): effective sampling unit (24,24)
    let tile = AtlasTile { offset: (1, 0), is_autotile: true, tile_kind: TileKind::Static };
    let atlas = one_tile_atlas(
        tile,
        (48, 48),
        AtlasRect { x: 0, y: 0, w: 96, h: 96 },
        96,
        96,
    );
    let o = atlas.get_texture_offset(0, 0);
    // page 96 / effective 24 = 4 cells per axis
    assert_eq!((o.den_x, o.den_y), (4, 4));
    // column index doubled when converting to half-size units
    assert_eq!((o.num_x, o.num_y), (2, 0));
    assert_eq!(atlas.get_sprite_tex_ratio(0), (4, 4));

    // autotile + animation compose: the advance is doubled too
    let anim = AtlasTile {
        offset: (1, 0),
        is_autotile: true,
        tile_kind: TileKind::Animated(4, 100),
    };
    let atlas2 = one_tile_atlas(
        anim,
        (48, 48),
        AtlasRect { x: 0, y: 0, w: 96, h: 96 },
        96,
        96,
    );
    let o2 = atlas2.get_texture_offset(0, 100);
    assert_eq!(o2.num_x, 4);
}

#[test]
fn grid_offset_rounds_up_to_contained_cell() {
    assert_eq!(get_add_offset(&AtlasRect { x: 0, y: 0, w: 5, h: 5 }, &(24, 24)), (0, 0));
    assert_eq!(get_add_offset(&AtlasRect { x: 25, y: 49, w: 5, h: 5 }, &(24, 24)), (2, 3));
    assert_eq!(get_add_offset(&AtlasRect { x: 24, y: 48, w: 5, h: 5 }, &(24, 24)), (1, 2));
}

#[test]
fn tilemap_ratio_counts_fixed_cells() {
    let tile = AtlasTile { offset: (0, 0), is_autotile: false, tile_kind: TileKind::Static };
    let atlas = one_tile_atlas(
        tile,
        (24, 24),
        AtlasRect { x: 0, y: 0, w: 24, h: 24 },
        96,
        48,
    );
    assert_eq!(atlas.get_tilemap_tex_ratio(0), (4, 2));
    assert_eq!(atlas.get_tile_texture_size(0), (24, 24));
    assert_eq!(atlas.get_tile_texture_idx(0), 0);
    assert_eq!(atlas.passes(), 1);
}

#[test]
fn small_frames_all_land_on_first_page() {
    let mut b = TileAtlasBuilder::new();
    for (i, name) in ["a.png", "b.png", "c.png"].iter().enumerate() {
        let img = image::DynamicImage::new_rgba8(100, 100);
        b.add_frame(name, (50, 50), img).unwrap();
        let tile = AtlasTile { offset: (0, 0), is_autotile: false, tile_kind: TileKind::Static };
        b.add_tile(name, i, tile);
    }
    let atlas = b.build().unwrap();
    assert_eq!(atlas.passes(), 1);
    for i in 0..3usize {
        assert_eq!(atlas.get_tile_texture_idx(i), 0);
    }
}

#[test]
fn add_frame_is_idempotent() {
    let mut b = TileAtlasBuilder::new();
    b.add_frame("a.png", (16, 16), image::DynamicImage::new_rgba8(32, 32)).unwrap();
    let tile = AtlasTile { offset: (1, 1), is_autotile: false, tile_kind: TileKind::Static };
    b.add_tile("a.png", 7, tile);
    // same key again, even with a different image and grid: a no-op
    b.add_frame("a.png", (8, 8), image::DynamicImage::new_rgba8(64, 64)).unwrap();
    let atlas = b.build().unwrap();
    assert_eq!(atlas.passes(), 1);
    assert_eq!(atlas.get_tile_texture_size(7), (16, 16));
    let t = atlas.get_texture_offset(7, 0);
    assert_eq!((t.num_x, t.num_y), (1, 1));
}

#[test]
fn tiles_survive_build_unchanged() {
    let mut b = TileAtlasBuilder::new();
    b.add_frame("sheet.png", (24, 24), image::DynamicImage::new_rgba8(96, 96)).unwrap();
    let t0 = AtlasTile { offset: (2, 3), is_autotile: false, tile_kind: TileKind::Static };
    let t1 = AtlasTile { offset: (0, 1), is_autotile: true, tile_kind: TileKind::Animated(2, 50) };
    b.add_tile("sheet.png", 10, t0);
    b.add_tile("sheet.png", 11, t1);
    let atlas = b.build().unwrap();
    assert_eq!(atlas.get_tile_texture_size(10), (24, 24));
    assert_eq!(atlas.get_tile_texture_size(11), (24, 24));
    let o = atlas.get_texture_offset(10, 12345);
    assert_eq!((o.num_x, o.num_y), (2, 3));
}

#[test]
fn oversized_image_fails_packing() {
    let mut b = TileAtlasBuilder::new();
    let r = b.add_frame("big.png", (24, 24), image::DynamicImage::new_rgba8(3000, 3000));
    assert_eq!(r, Err(AtlasError::PackingFailed));
}

#[test]
fn degenerate_image_fails_packing() {
    let mut b = TileAtlasBuilder::new();
    let r = b.add_frame("zero.png", (24, 24), image::DynamicImage::new_rgba8(0, 50));
    assert_eq!(r, Err(AtlasError::PackingFailed));
    let r2 = b.add_frame("zero2.png", (24, 24), image::DynamicImage::new_rgba8(50, 0));
    assert_eq!(r2, Err(AtlasError::PackingFailed));
    let mut f = tile_atlas::TextureAtlasBuilder::new();
    let r3 = f.add_texture("zero", image::DynamicImage::new_rgba8(0, 0));
    assert_eq!(r3, Err(AtlasError::PackingFailed));
}

#[test]
fn page_capacity_bounds_are_exact() {
    // a fresh page always accepts up to the full width and one short of the
    // full height
    let mut b = TileAtlasBuilder::new();
    assert!(b.add_frame("max.png", (24, 24), image::DynamicImage::new_rgba8(2048, 2047)).is_ok());
    let mut b2 = TileAtlasBuilder::new();
    let r = b2.add_frame("tall.png", (24, 24), image::DynamicImage::new_rgba8(24, 2048));
    assert_eq!(r, Err(AtlasError::PackingFailed));
    let mut f = tile_atlas::TextureAtlasBuilder::new();
    assert!(f.add_texture("wide", image::DynamicImage::new_rgba8(4096, 4095)).is_ok());
}

#[test]
fn empty_build_fails_export() {
    let b = TileAtlasBuilder::new();
    assert_eq!(b.build().err(), Some(AtlasError::ExportFailed));
}

#[test]
fn can_resolve_reports_definedness() {
    let tile = AtlasTile { offset: (0, 0), is_autotile: false, tile_kind: TileKind::Static };
    let atlas = one_tile_atlas(
        tile,
        (24, 24),
        AtlasRect { x: 0, y: 0, w: 24, h: 24 },
        48,
        48,
    );
    assert!(atlas.can_resolve(0));
    assert!(!atlas.can_resolve(5));
    // a page smaller than one sampling unit cannot be resolved against
    let cramped = one_tile_atlas(
        tile,
        (24, 24),
        AtlasRect { x: 0, y: 0, w: 24, h: 24 },
        16,
        16,
    );
    assert!(!cramped.can_resolve(0));
}

#[test]
fn page_from_image_reads_dimensions() {
    let p = AtlasPage::from_image(image::DynamicImage::new_rgba8(64, 32));
    assert_eq!((p.width, p.height), (64, 32));
}

#[test]
fn flat_atlas_records_texture_areas() {
    let mut b = tile_atlas::TextureAtlasBuilder::new();
    b.add_texture("grass", image::DynamicImage::new_rgba8(32, 16)).unwrap();
    let atlas = b.build().unwrap();
    let area = atlas.get_texture_area("grass");
    assert_eq!((area.w, area.h), (32, 16));
}
