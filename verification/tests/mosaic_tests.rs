use png_mosaic::catalog::{find_tile, generate_source_map, prepare_tile, SourceTile, TileCatalog};
use png_mosaic::chunk::pixels_per_chunk_gcf;
use png_mosaic::mosaic::{construct_mosaic, render_mosaic};
use png_mosaic::palette::apply_source_palette;
use png_mosaic::pixel::{accumulate_pixels, pixelate, reduce_pixels, Image};
use png_mosaic::MosaicError;

#[test]
fn test_pixels_per_chunk_gcf() {
    assert_eq!(pixels_per_chunk_gcf(5, 101, 101).unwrap(), 101);
    assert_eq!(pixels_per_chunk_gcf(4, 2048, 1024).unwrap(), 4);
    assert_eq!(pixels_per_chunk_gcf(7, 1000, 2000).unwrap(), 8);
}

#[test]
#[should_panic]
fn panic_pixels_per_chunk_gcf() {
    pixels_per_chunk_gcf(417, 2000, 17).unwrap();
    pixels_per_chunk_gcf(0, 200, 400).unwrap();
}

#[test]
fn test_accumulate_pixels() {}

#[test]
fn negotiation_fails_without_divisor() {
    assert_eq!(
        pixels_per_chunk_gcf(417, 2000, 17),
        Err(MosaicError::InvalidChunkSize)
    );
    assert_eq!(
        pixels_per_chunk_gcf(0, 200, 400),
        Err(MosaicError::InvalidChunkSize)
    );
    assert_eq!(
        pixels_per_chunk_gcf(6, 8, 9),
        Err(MosaicError::InvalidChunkSize)
    );
}

fn uniform_image(width: u32, height: u32, color: [u8; 3]) -> Image {
    let mut buffer = Vec::new();
    for _ in 0..(width * height) {
        buffer.extend_from_slice(&color);
    }
    Image {
        width,
        height,
        channels: 3,
        buffer,
    }
}

#[test]
fn uniform_image_blocks_keep_color() {
    let image = uniform_image(6, 6, [9, 200, 33]);
    let (grid, cw, ch) = pixelate(&image, 3, 3);
    assert_eq!((cw, ch), (2, 2));
    assert_eq!(grid.len(), 12);
    for block in 0..4 {
        assert_eq!(&grid[block * 3..block * 3 + 3], &[9, 200, 33]);
    }
}

#[test]
fn half_black_half_white_block_truncates() {
    let image = Image {
        width: 2,
        height: 2,
        channels: 3,
        buffer: vec![0, 0, 0, 0, 0, 0, 255, 255, 255, 255, 255, 255],
    };
    let (grid, cw, ch) = pixelate(&image, 3, 2);
    assert_eq!((cw, ch), (1, 1));
    assert_eq!(grid, vec![127, 127, 127]);
}

#[test]
fn alpha_is_dropped_from_averages() {
    // RGBA pixels whose alpha varies: the averaged grid sees only RGB
    let image = Image {
        width: 2,
        height: 1,
        channels: 4,
        buffer: vec![10, 20, 30, 255, 30, 40, 50, 0],
    };
    let (grid, cw, ch) = pixelate(&image, 3, 1);
    assert_eq!((cw, ch), (2, 1));
    assert_eq!(grid, vec![10, 20, 30, 30, 40, 50]);
}

#[test]
fn reduce_pixels_truncates_means() {
    let reduced = reduce_pixels(1, 1, 3, vec![100, 201, 300], 2);
    assert_eq!(reduced, vec![25, 50, 75]);
}

#[test]
fn accumulate_pixels_sums_blocks() {
    let buffer = vec![1, 2, 3, 4, 5, 6, 7, 8, 9, 10, 11, 12];
    let acc = accumulate_pixels(1, 1, 3, 3, &buffer, 2, 2);
    assert_eq!(acc, vec![1 + 4 + 7 + 10, 2 + 5 + 8 + 11, 3 + 6 + 9 + 12]);
}

fn two_key_catalog() -> TileCatalog {
    let dark = SourceTile {
        color_buffer: vec![0, 0, 0],
        pixels: vec![0, 0, 0],
    };
    let light = SourceTile {
        color_buffer: vec![255, 255, 255],
        pixels: vec![255, 255, 255],
    };
    generate_source_map(vec![dark, light], 3)
}

#[test]
fn palette_matches_nearest_key() {
    let catalog = two_key_catalog();
    let matched = apply_source_palette(vec![10, 10, 10], 3, &catalog).unwrap();
    assert_eq!(matched, vec![0, 0, 0]);
    let matched = apply_source_palette(vec![200, 199, 180], 3, &catalog).unwrap();
    assert_eq!(matched, vec![255, 255, 255]);
}

#[test]
fn empty_catalog_is_an_error() {
    let catalog = TileCatalog::new();
    assert_eq!(
        apply_source_palette(vec![1, 2, 3], 3, &catalog),
        Err(MosaicError::EmptyCatalog)
    );
}

#[test]
fn duplicate_keys_keep_last_tile() {
    let first = SourceTile {
        color_buffer: vec![5, 6, 7],
        pixels: vec![1, 1, 1],
    };
    let second = SourceTile {
        color_buffer: vec![5, 6, 7],
        pixels: vec![2, 2, 2],
    };
    let catalog = generate_source_map(vec![first, second], 3);
    assert_eq!(catalog.entries.len(), 1);
    let tile = find_tile(&catalog, &vec![5, 6, 7]).unwrap();
    assert_eq!(tile, &vec![2, 2, 2]);
}

#[test]
fn single_block_round_trip() {
    let tile = vec![1, 2, 3, 4, 5, 6, 7, 8, 9, 10, 11, 12];
    let catalog = TileCatalog::new().insert(vec![7, 8, 9], tile.clone());
    let out = construct_mosaic(vec![7, 8, 9], 2, 1, 1, 3, &catalog);
    assert_eq!(out, tile);
}

#[test]
fn prepare_tile_filters_nonconforming_images() {
    let not_square = Image {
        width: 2,
        height: 4,
        channels: 3,
        buffer: vec![0; 24],
    };
    assert!(prepare_tile(&not_square, 3, 2, 2).is_none());
    let wrong_side = uniform_image(4, 4, [1, 2, 3]);
    assert!(prepare_tile(&wrong_side, 3, 2, 2).is_none());
    let indivisible = uniform_image(3, 3, [1, 2, 3]);
    assert!(prepare_tile(&indivisible, 3, 2, 3).is_none());
    let good = uniform_image(2, 2, [1, 2, 3]);
    assert!(prepare_tile(&good, 3, 2, 2).is_some());
}

#[test]
fn prepare_tile_strips_alpha() {
    let image = Image {
        width: 2,
        height: 2,
        channels: 4,
        buffer: vec![
            1, 2, 3, 200, 4, 5, 6, 201, 7, 8, 9, 202, 10, 11, 12, 203,
        ],
    };
    let tile = prepare_tile(&image, 3, 2, 2).unwrap();
    assert_eq!(tile.pixels, vec![1, 2, 3, 4, 5, 6, 7, 8, 9, 10, 11, 12]);
    // one block whose average drops the alpha channel entirely
    assert_eq!(tile.color_buffer, vec![(1 + 4 + 7 + 10) / 4, (2 + 5 + 8 + 11) / 4, (3 + 6 + 9 + 12) / 4]);
}

#[test]
fn render_pipeline_equals_phases() {
    let catalog = two_key_catalog();
    // a 2x1 block grid, tile side 1: matching then composing in one step
    let grid = vec![3, 3, 3, 250, 250, 250];
    let by_phases = {
        let matched = apply_source_palette(grid.clone(), 3, &catalog).unwrap();
        construct_mosaic(matched, 1, 2, 1, 3, &catalog)
    };
    let by_pipeline = render_mosaic(grid, 1, 2, 1, 3, &catalog).unwrap();
    assert_eq!(by_pipeline, by_phases);
    assert_eq!(by_pipeline, vec![0, 0, 0, 255, 255, 255]);
}

#[test]
fn render_pipeline_fails_on_empty_catalog() {
    let result = render_mosaic(vec![1, 2, 3], 1, 1, 1, 3, &TileCatalog::new());
    assert_eq!(result, Err(MosaicError::EmptyCatalog));
}

#[test]
fn end_to_end_quadrants_match_tiles() {
    // 4x4 target, chunk size 2: dark left half, light right half
    let mut target_buffer = Vec::new();
    for _row in 0..4 {
        for col in 0..4 {
            if col < 2 {
                target_buffer.extend_from_slice(&[0, 0, 0]);
            } else {
                target_buffer.extend_from_slice(&[255, 255, 255]);
            }
        }
    }
    let target = Image {
        width: 4,
        height: 4,
        channels: 3,
        buffer: target_buffer,
    };
    let chunk = pixels_per_chunk_gcf(2, target.width, target.height).unwrap();
    assert_eq!(chunk, 2);
    let (grid, tw, th) = pixelate(&target, 3, chunk);
    assert_eq!((tw, th), (2, 2));

    // two 2x2 candidate tiles: tile side 2 equals the block size here
    let dark_tile = Image {
        width: 2,
        height: 2,
        channels: 3,
        buffer: vec![1, 2, 3, 4, 5, 6, 7, 8, 9, 10, 11, 12],
    };
    let light_tile = uniform_image(2, 2, [250, 251, 252]);
    let tiles = vec![
        prepare_tile(&dark_tile, 3, 2, 2).unwrap(),
        prepare_tile(&light_tile, 3, 2, 2).unwrap(),
    ];
    let catalog = generate_source_map(tiles, 3);
    assert_eq!(catalog.entries.len(), 2);

    let matched = apply_source_palette(grid, 3, &catalog).unwrap();
    let out = construct_mosaic(matched, 2, tw, th, 3, &catalog);
    assert_eq!(out.len(), 2 * 2 * 2 * 2 * 3);

    let dark = &dark_tile.buffer;
    let light = &light_tile.buffer;
    // raster-scan interleaving: each output row holds one tile row per block
    let mut expected = Vec::new();
    for block_row in 0..2 {
        let _ = block_row;
        for tile_row in 0..2 {
            expected.extend_from_slice(&dark[tile_row * 6..tile_row * 6 + 6]);
            expected.extend_from_slice(&light[tile_row * 6..tile_row * 6 + 6]);
        }
    }
    assert_eq!(out, expected);
}
