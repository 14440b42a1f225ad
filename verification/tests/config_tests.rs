use tile_atlas::{
    AtlasFrame, AtlasPage, AtlasRect, AtlasTile, CacheDecision, TileAtlas, TileAtlasBuilder,
    TileAtlasConfig, TileKind, check_cache, content_hash, decode_config, encode_config,
    get_config_cache_path,
};

fn sample_config() -> TileAtlasConfig {
    let t0 = AtlasTile { offset: (2, 3), is_autotile: false, tile_kind: TileKind::Static };
    let t1 = AtlasTile { offset: (0, 1), is_autotile: true, tile_kind: TileKind::Animated(4, 100) };
    TileAtlasConfig {
        locations: vec![(0usize, String::from("a.png")), (1usize, String::from("b.png"))],
        frames: vec![
            (
                String::from("a.png"),
                AtlasFrame {
                    tile_size: (24, 24),
                    texture_idx: 0,
                    rect: AtlasRect { x: 0, y: 0, w: 48, h: 48 },
                    offsets: vec![(0usize, t0)],
                },
            ),
            (
                String::from("b.png"),
                AtlasFrame {
                    tile_size: (48, 48),
                    texture_idx: 1,
                    rect: AtlasRect { x: 10, y: 20, w: 96, h: 96 },
                    offsets: vec![(1usize, t1)],
                },
            ),
        ],
        file_hash: String::from("0123abcd"),
    }
}

#[test]
fn config_round_trips_exactly() {
    let config = sample_config();
    let blob = encode_config(&config);
    let back = decode_config(&blob).expect("a freshly encoded config decodes");
    assert_eq!(back, config);
}

#[test]
fn config_with_unicode_key_round_trips() {
    let mut config = sample_config();
    config.frames[0].0 = String::from("tiles/\u{00fc}ber \u{1F600}.png");
    config.locations[0].1 = config.frames[0].0.clone();
    let blob = encode_config(&config);
    let back = decode_config(&blob).expect("unicode keys decode");
    assert_eq!(back, config);
}

#[test]
fn truncated_blob_is_rejected() {
    let config = sample_config();
    let mut blob = encode_config(&config);
    blob.pop();
    assert!(decode_config(&blob).is_none());
    let mut longer = encode_config(&config);
    longer.push(0);
    assert!(decode_config(&longer).is_none());
}

#[test]
fn gatekeeper_reuses_only_on_matching_hash() {
    let config = sample_config();
    let same = String::from("0123abcd");
    let other = String::from("ffff0000");
    assert_eq!(check_cache(Some(&config), &same), CacheDecision::Reuse);
    assert_eq!(check_cache(Some(&config), &other), CacheDecision::Rebuild);
    assert_eq!(check_cache(None, &same), CacheDecision::Rebuild);
}

#[test]
fn content_hash_matches_sha3_256() {
    assert_eq!(
        content_hash("abc"),
        "3a985da74fe225b2045c172d6bd390bd855f086e3e9d525b46bfe24511431532"
    );
    assert_ne!(content_hash("abc"), content_hash("abd"));
}

#[test]
fn cache_path_is_keyed_by_config_name() {
    assert_eq!(get_config_cache_path("map"), "data/.packed/map");
}

#[test]
fn validate_rejects_broken_tables() {
    let mut dup = sample_config();
    dup.locations.push((0usize, String::from("a.png")));
    assert!(!dup.validate(2));

    let mut unlinked = sample_config();
    unlinked.locations.push((9usize, String::from("missing.png")));
    assert!(!unlinked.validate(2));

    let mut off_page = sample_config();
    off_page.frames[1].1.texture_idx = 7;
    assert!(!off_page.validate(2));

    assert!(sample_config().validate(2));
}

#[test]
fn reuse_reconstructs_identical_offsets() {
    // build once with the real packer
    let mut b = TileAtlasBuilder::new();
    b.add_frame("sheet.png", (24, 24), image::DynamicImage::new_rgba8(96, 96)).unwrap();
    let t0 = AtlasTile { offset: (1, 0), is_autotile: false, tile_kind: TileKind::Static };
    let t1 = AtlasTile { offset: (0, 1), is_autotile: false, tile_kind: TileKind::Animated(4, 100) };
    b.add_tile("sheet.png", 0, t0);
    b.add_tile("sheet.png", 1, t1);
    let built = b.build().unwrap();

    // persist: config blob plus per-page images
    let hash = content_hash("definition text");
    let config = built.make_config(hash.clone());
    let blob = encode_config(&config);

    // the gatekeeper sees the unchanged text and chooses reuse
    let reloaded = decode_config(&blob).unwrap();
    assert_eq!(check_cache(Some(&reloaded), &hash), CacheDecision::Reuse);

    // reconstruct without any packing, from pages of the same size
    let mut pages = Vec::new();
    for i in 0..built.passes() {
        let p = built.get_texture(i);
        pages.push(AtlasPage {
            image: image::DynamicImage::new_rgba8(p.width, p.height),
            width: p.width,
            height: p.height,
        });
    }
    assert!(reloaded.validate(pages.len()));
    let reused = TileAtlas::from_config(reloaded, pages);

    for idx in 0..2usize {
        for now in [0u64, 100, 250, 1000] {
            assert_eq!(reused.get_texture_offset(idx, now), built.get_texture_offset(idx, now));
        }
    }
}
