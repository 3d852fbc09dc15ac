//! Tests of the raster, compositing, sprite cache, and renderer
//! geometry, run against the real image decoder.

use demonax_mapper::objects::ObjectCatalog;
use demonax_mapper::palette::{create_color_map, get_tibia_palette, object_name_to_color, Rgb};
use demonax_mapper::raster::{alpha_blend, create_missing_sprite, overlay_with_alpha, Pixel,
    Raster};
use demonax_mapper::render::{map_dimensions, render_tile, scale_sprite, tile_grid, zoom_scale};
use demonax_mapper::sectors::{SpriteMapData, TileStack};
use demonax_mapper::sprites::{decode_or_placeholder, SpriteCache};

#[test]
fn test_alpha_blend_transparent() {
    let bottom = Pixel::new(100, 100, 100, 255);
    let top = Pixel::new(200, 0, 0, 0);
    let result = alpha_blend(bottom, top);
    assert_eq!(result, bottom);
}

#[test]
fn test_alpha_blend_opaque() {
    let bottom = Pixel::new(100, 100, 100, 255);
    let top = Pixel::new(200, 0, 0, 255);
    let result = alpha_blend(bottom, top);
    assert_eq!(result, top);
}

#[test]
fn test_alpha_blend_partial() {
    let bottom = Pixel::new(100, 100, 100, 255);
    let top = Pixel::new(200, 0, 0, 128);
    let result = alpha_blend(bottom, top);

    assert!(result.r > 100 && result.r < 200);
    assert_eq!(result.a, 255);
}

#[test]
fn alpha_blend_exact_values() {
    // (c_t * a_t + c_b * a_b * (1 - a_t)) / a_out, truncated per byte
    let bottom = Pixel::new(100, 100, 100, 255);
    let top = Pixel::new(200, 0, 0, 128);
    let result = alpha_blend(bottom, top);
    assert_eq!(result, Pixel::new(150, 49, 49, 255));
}

#[test]
fn test_create_missing_sprite() {
    let sprite = create_missing_sprite();
    assert_eq!((sprite.width, sprite.height), (32, 32));

    let top_left = sprite.get_pixel(0, 0);
    assert_eq!(top_left.r, 255);
}

#[test]
fn missing_sprite_checker_cells() {
    let sprite = create_missing_sprite();
    assert_eq!(sprite.get_pixel(0, 0), Pixel::new(255, 0, 255, 255));
    assert_eq!(sprite.get_pixel(8, 0), Pixel::new(255, 105, 180, 255));
    assert_eq!(sprite.get_pixel(8, 8), Pixel::new(255, 0, 255, 255));
}

#[test]
fn opaque_overlay_lands_exactly_at_its_offset() {
    // a fully opaque sprite at offset (5, 5) reproduces its samples at
    // (5,5)..(36,36) untouched
    let mut base = Raster::filled(256, 256, Pixel::new(0, 0, 0, 0));
    let mut sprite = Raster::filled(32, 32, Pixel::new(0, 0, 0, 255));
    for y in 0..32u32 {
        for x in 0..32u32 {
            sprite.put_pixel(x, y, Pixel::new(x as u8, y as u8, 77, 255));
        }
    }
    overlay_with_alpha(&mut base, &sprite, 5, 5);
    for y in 0..32u32 {
        for x in 0..32u32 {
            assert_eq!(base.get_pixel(5 + x, 5 + y), sprite.get_pixel(x, y));
        }
    }
    assert_eq!(base.get_pixel(4, 4), Pixel::new(0, 0, 0, 0));
    assert_eq!(base.get_pixel(37, 37), Pixel::new(0, 0, 0, 0));
}

#[test]
fn overlay_clips_at_the_origin() {
    let mut base = Raster::filled(16, 16, Pixel::new(1, 2, 3, 255));
    let sprite = Raster::filled(8, 8, Pixel::new(9, 9, 9, 255));
    overlay_with_alpha(&mut base, &sprite, -4, -4);
    assert_eq!(base.get_pixel(0, 0), Pixel::new(9, 9, 9, 255));
    assert_eq!(base.get_pixel(4, 4), Pixel::new(1, 2, 3, 255));
}

#[test]
fn raster_bytes_round_trip() {
    let mut img = Raster::filled(2, 2, Pixel::new(0, 0, 0, 0));
    img.put_pixel(1, 0, Pixel::new(10, 20, 30, 40));
    let bytes = img.rgba_bytes();
    assert_eq!(bytes.len(), 16);
    assert_eq!(&bytes[4..8], &[10, 20, 30, 40]);
    let back = Raster::from_rgba_bytes(2, 2, &bytes).expect("length fits");
    assert_eq!(back.get_pixel(1, 0), Pixel::new(10, 20, 30, 40));
    assert!(Raster::from_rgba_bytes(2, 2, &vec![0u8; 15]).is_none());
}

#[test]
fn scale_keeps_a_sprite_already_at_size() {
    let sprite = Raster::filled(32, 32, Pixel::new(3, 4, 5, 255));
    let scaled = scale_sprite(&sprite, 32);
    assert_eq!((scaled.width, scaled.height), (32, 32));
    assert_eq!(scaled.get_pixel(7, 9), Pixel::new(3, 4, 5, 255));
}

#[test]
fn scale_resamples_to_the_zoom_size() {
    // 32 px at scale 64 becomes (32*64+16)/32 = 64 px a side
    let sprite = Raster::filled(32, 32, Pixel::new(3, 4, 5, 255));
    let scaled = scale_sprite(&sprite, 64);
    assert_eq!((scaled.width, scaled.height), (64, 64));
    assert_eq!(scaled.pixels.len(), 64 * 64);
    assert!(scaled.get_pixel(32, 32).a >= 250);
    // and at scale 8 it shrinks to (32*8+16)/32 = 8 px
    let small = scale_sprite(&sprite, 8);
    assert_eq!((small.width, small.height), (8, 8));
    assert_eq!(small.pixels.len(), 8 * 8);
}

#[test]
fn zoom_scale_doubles_per_level() {
    assert_eq!(zoom_scale(0), Some(1));
    assert_eq!(zoom_scale(5), Some(32));
    assert_eq!(zoom_scale(16), Some(65536));
    assert_eq!(zoom_scale(17), None);
}

#[test]
fn map_dimensions_and_grid() {
    let m = SpriteMapData {
        floor: 7,
        tiles: Vec::new(),
        min_sector_x: 1,
        max_sector_x: 4,
        min_sector_y: 2,
        max_sector_y: 2,
        version: 2,
    };
    let (w, h) = map_dimensions(&m).expect("box is sane");
    assert_eq!((w, h), (128, 32));
    // extent 128*2 = 256 px is exactly one 256-px tile
    assert_eq!(tile_grid(w, h, 2), Some((1, 1)));
    assert_eq!(tile_grid(w, h, 4), Some((2, 1)));
}

#[test]
fn sprite_cache_missing_file_gives_placeholder() {
    let cache = SpriteCache::new("/tmp").expect("directory exists");
    let sprite = cache.get_sprite(4294911111);
    let placeholder = create_missing_sprite();
    assert_eq!((sprite.width, sprite.height), (32, 32));
    assert_eq!(sprite.rgba_bytes(), placeholder.rgba_bytes());
    // the flagged form reports the fallback, so a caller can warn
    let (again, fallback) = cache.fetch_sprite(4294911111);
    assert!(fallback);
    assert_eq!(again.rgba_bytes(), placeholder.rgba_bytes());
}

#[test]
fn fallback_rule_decodes_or_substitutes() {
    let placeholder = create_missing_sprite();

    let (img, decoded) = decode_or_placeholder(Err("unreadable".to_string()), &placeholder);
    assert!(!decoded);
    assert_eq!(img.rgba_bytes(), placeholder.rgba_bytes());

    let bytes: Vec<u8> = vec![1, 2, 3, 4, 5, 6, 7, 8, 9, 10, 11, 12, 13, 14, 15, 16];
    let (img, decoded) = decode_or_placeholder(Ok((2, 2, bytes)), &placeholder);
    assert!(decoded);
    assert_eq!((img.width, img.height), (2, 2));
    assert_eq!(img.get_pixel(1, 1), Pixel::new(13, 14, 15, 16));

    let short: Vec<u8> = vec![1, 2, 3];
    let (img, decoded) = decode_or_placeholder(Ok((2, 2, short)), &placeholder);
    assert!(!decoded);
    assert_eq!(img.rgba_bytes(), placeholder.rgba_bytes());
}

#[test]
fn sprite_cache_missing_directory_is_an_error() {
    assert!(SpriteCache::new("/tmp/this-sprite-directory-does-not-exist").is_err());
}

#[test]
fn sprite_cache_loads_and_counts_a_real_file() {
    let id: u32 = 4123456789;
    let mut img = image::RgbaImage::new(32, 32);
    for y in 0..32u32 {
        for x in 0..32u32 {
            img.put_pixel(x, y, image::Rgba([x as u8, y as u8, 7, 255]));
        }
    }
    img.save(format!("/tmp/{}.png", id)).expect("can write under /tmp");

    let cache = SpriteCache::new("/tmp").expect("directory exists");
    cache.preload_sprites(&vec![id]).expect("preload never fails");
    assert_eq!(cache.cache_size(), 1);
    let sprite = cache.get_sprite(id);
    assert_eq!((sprite.width, sprite.height), (32, 32));
    assert_eq!(sprite.get_pixel(3, 4), Pixel::new(3, 4, 7, 255));
}

#[test]
fn render_tile_paints_the_placeholder_at_the_anchor() {
    let cache = SpriteCache::new("/tmp").expect("directory exists");
    let mut catalog = ObjectCatalog::new();
    catalog.put(4294911111, b"mystery".to_vec(), Vec::new(), 1, None);
    let m = SpriteMapData {
        floor: 7,
        tiles: vec![TileStack { x: 0, y: 0, object_ids: vec![4294911111] }],
        min_sector_x: 0,
        max_sector_x: 0,
        min_sector_y: 0,
        max_sector_y: 0,
        version: 2,
    };
    let out = render_tile(&m, &cache, &catalog, 0, 0, 32, 32, 32);
    assert_eq!((out.width, out.height), (256, 256));
    // the 32x32 placeholder covers world tile (0,0): pixels 0..32
    let placeholder = create_missing_sprite();
    assert_eq!(out.get_pixel(0, 0), placeholder.get_pixel(0, 0));
    assert_eq!(out.get_pixel(31, 31), placeholder.get_pixel(31, 31));
    assert_eq!(out.get_pixel(40, 40), Pixel::new(0, 0, 0, 0));
}

#[test]
fn palette_and_colors() {
    let palette = get_tibia_palette();
    assert_eq!(palette.get(&0x18), Some(&Rgb::new(0, 255, 0)));
    assert_eq!(palette.len(), 15);

    assert_eq!(object_name_to_color(&b"Blue Water".to_vec(), false, false), Rgb::new(33, 66, 99));
    assert_eq!(object_name_to_color(&b"Old Wall".to_vec(), false, true), Rgb::new(255, 0, 0));
    assert_eq!(object_name_to_color(&b"Soil Patch".to_vec(), true, false), Rgb::new(165, 42, 42));
    assert_eq!(object_name_to_color(&b"Oddity".to_vec(), false, false), Rgb::new(0, 0, 0));

    let mut catalog = ObjectCatalog::new();
    catalog.put(5, b"Sea Shore".to_vec(), Vec::new(), 1, None);
    let colors = create_color_map(&catalog);
    assert_eq!(colors.get(&5), Some(&Rgb::new(33, 66, 99)));
}
