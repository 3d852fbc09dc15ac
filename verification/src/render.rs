//! The tile renderer: geometry of the tile pyramid and the compositing
//! of one 256x256 output tile from a floor's stacks.

use vstd::prelude::*;
use crate::layers::{select_sprite_layers, spec_select_layers};
use crate::objects::{GameObjectV, ObjectCatalog};
use crate::raster::{Pixel, Raster, RasterV, overlay_with_alpha, pix_at, spec_overlay_pixel,
    spec_pixels_of, spec_rgba_bytes};
use crate::sectors::{SpriteMapData, TileStack, TileStackV};
use crate::sprites::{SpriteCache, duplicate};

verus! {

/// What Lanczos3 resampling makes of an RGBA byte run; a function of
/// the samples and the two sizes alone.
pub uninterp spec fn lanczos_rgba(src: Seq<u8>, w: nat, h: nat, nw: nat, nh: nat) -> Seq<u8>;

/// Relies on image::imageops::resize with the Lanczos3 filter, via
/// RgbaImage::from_raw: the resampled RGBA samples, a buffer of exactly
/// four bytes per output pixel.
#[verifier::external_body]
fn resize_rgba(w: u32, h: u32, data: &Vec<u8>, nw: u32, nh: u32) -> (r: Vec<u8>)
    requires
        data@.len() == w * h * 4,
        nw >= 1,
        nh >= 1,
        nw * nh * 4 <= usize::MAX,
    ensures
        r@.len() == nw * nh * 4,
        r@ == lanczos_rgba(data@, w as nat, h as nat, nw as nat, nh as nat),
{
    let img = image::RgbaImage::from_raw(w, h, data.clone()).unwrap();
    let out = image::imageops::resize(&img, nw, nh, image::imageops::FilterType::Lanczos3);
    out.into_raw()
}

/// A sprite dimension at a zoom scale: `d * scale / 32`, rounded half
/// away from zero.
pub open spec fn spec_scaled_dim(d: u32, scale: u32) -> int {
    (d * scale + 16) / 32
}

/// The arithmetic room a sprite needs to be scaled.
pub open spec fn spec_scalable(r: crate::raster::RasterV, scale: u32) -> bool {
    &&& r.width * scale + 16 <= u32::MAX
    &&& r.height * scale + 16 <= u32::MAX
    &&& r.pixels.len() * 4 <= usize::MAX
    &&& spec_scaled_dim(r.width, scale) * spec_scaled_dim(r.height, scale) * 4 <= usize::MAX
}

/// The product of two values below `2^32` stays below `2^64`.
proof fn lemma_u32_mul_bound(a: int, b: int)
    requires
        0 <= a <= 0xffff_ffff,
        0 <= b <= 0xffff_ffff,
    ensures
        0 <= a * b <= 0xffff_fffe_0000_0001,
{
    assert(a * b <= 0xffff_ffff * 0xffff_ffff) by (nonlinear_arith)
        requires
            0 <= a <= 0xffff_ffff,
            0 <= b <= 0xffff_ffff,
    ;
    assert(a * b >= 0) by (nonlinear_arith)
        requires
            0 <= a,
            0 <= b,
    ;
}

/// Whether the sprite fits the arithmetic limits of scaling; anything
/// a real sprite directory holds does.
pub fn scalable(r: &Raster, scale: u32) -> (ok: bool)
    requires
        r.wf(),
        scale >= 1,
    ensures
        ok == spec_scalable(r@, scale),
{
    let w64 = r.width as u64;
    let h64 = r.height as u64;
    let s64 = scale as u64;
    proof {
        lemma_u32_mul_bound(r.width as int, scale as int);
        lemma_u32_mul_bound(r.height as int, scale as int);
    }
    let wp = (w64 as u128) * (s64 as u128);
    let hp = (h64 as u128) * (s64 as u128);
    if wp + 16 > (u32::MAX as u128) || hp + 16 > (u32::MAX as u128) {
        return false;
    }
    let pl = (r.pixels.len() as u128) * 4;
    if pl > (usize::MAX as u128) {
        return false;
    }
    let nw = (wp + 16) / 32;
    let nh = (hp + 16) / 32;
    proof {
        assert(nw * nh <= 0x1000_0000_0000_0000_0000_0000_0000_0000) by (nonlinear_arith)
            requires
                0 <= nw <= 0x1000_0000_0000_0000u128,
                0 <= nh <= 0x1000_0000_0000_0000u128,
        ;
    }
    let need = nw * nh * 4;
    need <= (usize::MAX as u128)
}

/// What the scaler makes of a sprite: both dimensions rounded to the
/// zoom size; a sprite already at size keeps its samples, a degenerate
/// target is empty, and anything else is the Lanczos3 resampling.
pub open spec fn spec_scaled_of(sprite: crate::raster::RasterV, scale: u32) -> crate::raster::RasterV {
    let nw = spec_scaled_dim(sprite.width, scale);
    let nh = spec_scaled_dim(sprite.height, scale);
    if nw == sprite.width && nh == sprite.height {
        sprite
    } else if nw == 0 || nh == 0 {
        crate::raster::RasterV { width: nw as u32, height: nh as u32, pixels: Seq::empty() }
    } else {
        crate::raster::RasterV {
            width: nw as u32,
            height: nh as u32,
            pixels: spec_pixels_of(
                lanczos_rgba(
                    spec_rgba_bytes(sprite.pixels),
                    sprite.width as nat,
                    sprite.height as nat,
                    nw as nat,
                    nh as nat,
                ),
            ),
        }
    }
}

/// Scales a sprite to a zoom level: every dimension becomes
/// `d * scale / 32` rounded half away from zero, so that one world
/// tile covers `scale` pixels. A sprite already at size is copied
/// unchanged; the rest is Lanczos3 resampling.
pub fn scale_sprite(sprite: &Raster, scale: u32) -> (r: Raster)
    requires
        sprite.wf(),
        scale >= 1,
        spec_scalable(sprite@, scale),
    ensures
        r.wf(),
        r.width == spec_scaled_dim(sprite.width, scale),
        r.height == spec_scaled_dim(sprite.height, scale),
        (r.width == sprite.width && r.height == sprite.height) ==> r@ == sprite@,
        (r.width != sprite.width || r.height != sprite.height) && r.width >= 1 && r.height >= 1
            ==> r@.pixels == spec_pixels_of(
            lanczos_rgba(
                spec_rgba_bytes(sprite@.pixels),
                sprite.width as nat,
                sprite.height as nat,
                r.width as nat,
                r.height as nat,
            ),
        ),
        r@ == spec_scaled_of(sprite@, scale),
{
    let w = sprite.width;
    let h = sprite.height;
    let nw64 = ((w as u64) * (scale as u64) + 16) / 32;
    let nh64 = ((h as u64) * (scale as u64) + 16) / 32;
    let nw = nw64 as u32;
    let nh = nh64 as u32;
    if nw == w && nh == h {
        let copy = duplicate(sprite);
        proof {
            assert(copy@ == spec_scaled_of(sprite@, scale));
        }
        return copy;
    }
    if nw == 0 || nh == 0 {
        let empty = Raster { width: nw, height: nh, pixels: Vec::new() };
        proof {
            assert(nw as int * nh as int == 0) by (nonlinear_arith)
                requires
                    nw == 0 || nh == 0,
            ;
            assert(empty@.pixels =~= Seq::<Pixel>::empty());
            assert(empty@ == spec_scaled_of(sprite@, scale));
        }
        return empty;
    }
    let bytes = sprite.rgba_bytes();
    let resized = resize_rgba(w, h, &bytes, nw, nh);
    match Raster::from_rgba_bytes(nw, nh, &resized) {
        Some(img) => {
            proof {
                assert(img@ == spec_scaled_of(sprite@, scale));
            }
            img
        },
        None => {
            // the resize contract fixes the buffer length, so this
            // branch cannot be reached
            proof {
                assert(false);
            }
            Raster { width: nw, height: nh, pixels: Vec::new() }
        },
    }
}

/// `2^zoom`, the pixels-per-world-tile factor of a zoom level; levels
/// past 16 are out of the renderer's range.
pub open spec fn spec_pow2(n: nat) -> nat
    decreases n,
{
    if n == 0 {
        1
    } else {
        2 * spec_pow2((n - 1) as nat)
    }
}

pub fn zoom_scale(zoom: u8) -> (r: Option<u32>)
    ensures
        zoom <= 16 ==> (r matches Some(s) && s == spec_pow2(zoom as nat) && 1 <= s <= 65536),
        zoom > 16 ==> r is None,
{
    if zoom > 16 {
        return None;
    }
    let mut s: u32 = 1;
    let mut i: u8 = 0;
    proof {
        lemma_pow2_bound(zoom as nat);
        lemma_pow2_mono(0, zoom as nat);
    }
    while i < zoom
        invariant
            i <= zoom <= 16,
            s == spec_pow2(i as nat),
            spec_pow2(zoom as nat) <= 65536,
            s <= spec_pow2(zoom as nat),
        decreases zoom - i,
    {
        proof {
            lemma_pow2_mono(i as nat + 1, zoom as nat);
        }
        s = s * 2;
        i = i + 1;
    }
    proof {
        lemma_pow2_mono(0, zoom as nat);
    }
    Some(s)
}

proof fn lemma_pow2_mono(a: nat, b: nat)
    requires
        a <= b,
    ensures
        spec_pow2(a) <= spec_pow2(b),
    decreases b,
{
    if a < b {
        lemma_pow2_mono(a, (b - 1) as nat);
        assert(spec_pow2(b) == 2 * spec_pow2((b - 1) as nat));
    }
}

proof fn lemma_pow2_bound(n: nat)
    requires
        n <= 16,
    ensures
        spec_pow2(n) <= 65536,
    decreases n,
{
    if n > 0 {
        lemma_pow2_bound((n - 1) as nat);
        lemma_pow2_mono(n, 16);
        assert(spec_pow2(16) == 65536) by {
            reveal_with_fuel(spec_pow2, 17);
        }
    }
}

/// The floor's size in world tiles, from its sector bounding box:
/// 32 tiles per sector across the inclusive sector span. `None` when
/// the box is inverted or leaves the grid.
pub fn map_dimensions(map_data: &SpriteMapData) -> (r: Option<(u32, u32)>)
    ensures
        ({
            let wok = map_data.min_sector_x <= map_data.max_sector_x && (map_data.max_sector_x
                - map_data.min_sector_x + 1) * 32 <= u32::MAX;
            let hok = map_data.min_sector_y <= map_data.max_sector_y && (map_data.max_sector_y
                - map_data.min_sector_y + 1) * 32 <= u32::MAX;
            if wok && hok {
                r matches Some(d) && d.0 == (map_data.max_sector_x - map_data.min_sector_x + 1)
                    * 32 && d.1 == (map_data.max_sector_y - map_data.min_sector_y + 1) * 32
            } else {
                r is None
            }
        }),
{
    if map_data.min_sector_x > map_data.max_sector_x || map_data.min_sector_y
        > map_data.max_sector_y {
        return None;
    }
    let spanx = map_data.max_sector_x - map_data.min_sector_x;
    let spany = map_data.max_sector_y - map_data.min_sector_y;
    if spanx >= u32::MAX / 32 || spany >= u32::MAX / 32 {
        return None;
    }
    Some(((spanx + 1) * 32, (spany + 1) * 32))
}

/// The output tile grid of one zoom level: the floor's pixel extent is
/// `map dimension * scale`, cut into 256-pixel tiles, rounded up.
pub fn tile_grid(map_width: u32, map_height: u32, scale: u32) -> (r: Option<(u32, u32)>)
    requires
        scale >= 1,
    ensures
        ({
            let ok = map_width * scale + 255 <= u32::MAX && map_height * scale + 255 <= u32::MAX;
            if ok {
                r matches Some(g) && g.0 == (map_width * scale + 255) / 256 && g.1 == (map_height
                    * scale + 255) / 256
            } else {
                r is None
            }
        }),
{
    proof {
        lemma_u32_mul_bound(map_width as int, scale as int);
        lemma_u32_mul_bound(map_height as int, scale as int);
    }
    let wp = (map_width as u64) * (scale as u64);
    let hp = (map_height as u64) * (scale as u64);
    if wp + 255 > (u32::MAX as u64) || hp + 255 > (u32::MAX as u64) {
        return None;
    }
    let gw = ((wp + 255) / 256) as u32;
    let gh = ((hp + 255) / 256) as u32;
    Some((gw, gh))
}

/// The mathematical image of a stack list.
pub open spec fn stack_views(tiles: Seq<TileStack>) -> Seq<TileStackV> {
    tiles.map_values(|t: TileStack| t@)
}

/// A pixel list that covers its grid.
pub open spec fn raster_wf(r: RasterV) -> bool {
    r.pixels.len() == r.width * r.height
}

/// The fully transparent 256x256 raster a tile starts from.
pub open spec fn spec_blank_tile() -> RasterV {
    RasterV {
        width: 256,
        height: 256,
        pixels: Seq::new(256 * 256, |i: int| Pixel { r: 0, g: 0, b: 0, a: 0 }),
    }
}

/// The sprite fetched for a drawn id: its disguise target's when the
/// catalog declares one, else its own. The substitution changes only
/// which image is drawn — the id's layer came from its own flags.
pub open spec fn spec_sprite_id(cat: Map<u32, GameObjectV>, id: u32) -> u32 {
    if cat.dom().contains(id) {
        match cat[id].disguise_target {
            Some(d) => d,
            None => id,
        }
    } else {
        id
    }
}

/// The world-tile window of one output tile: the rectangle it covers
/// at the zoom scale, clipped to the floor, and the search rectangle
/// with a margin of the widest possible sprite footprint.
pub struct RenderGeo {
    pub scale: u32,
    pub tsx: int,
    pub tsy: int,
    pub tex: int,
    pub tey: int,
    pub ssx: int,
    pub sex: int,
    pub ssy: int,
    pub sey: int,
}

pub open spec fn spec_geometry(tile_x: u32, tile_y: u32, scale: u32, map_width: u32, map_height: u32)
    -> RenderGeo {
    let tsx = tile_x * 256 / (scale as int);
    let tsy = tile_y * 256 / (scale as int);
    let tex0 = (tile_x + 1) * 256 / (scale as int);
    let tex = if tex0 < map_width {
        tex0
    } else {
        map_width as int
    };
    let tey0 = (tile_y + 1) * 256 / (scale as int);
    let tey = if tey0 < map_height {
        tey0
    } else {
        map_height as int
    };
    let margin = (64 + scale - 1) / (scale as int);
    RenderGeo {
        scale,
        tsx,
        tsy,
        tex,
        tey,
        ssx: if tsx >= margin {
            tsx - margin
        } else {
            0
        },
        sex: tex + margin,
        ssy: if tsy >= margin {
            tsy - margin
        } else {
            0
        },
        sey: tey + margin,
    }
}

/// Whether a stack lies in the tile's search rectangle.
pub open spec fn in_search_rect(t: TileStackV, geo: RenderGeo) -> bool {
    geo.ssx <= t.x < geo.sex && geo.ssy <= t.y < geo.sey
}

/// The pixel-offset window the compositor accepts; anything outside
/// could not touch the 256x256 raster.
pub open spec fn offset_ok(px: int, py: int, sw: int, sh: int) -> bool {
    px < 256 && py < 256 && px + sw > -0x8000_0000 && py + sh > -0x8000_0000 && px
        >= -0x8000_0000 && py >= -0x8000_0000
}

/// The whole-raster form of source-over compositing: every sample of
/// `base` overlaid per `spec_overlay_pixel`.
pub open spec fn spec_composite(base: RasterV, ov: RasterV, xo: int, yo: int) -> RasterV {
    RasterV {
        width: base.width,
        height: base.height,
        pixels: Seq::new(
            base.pixels.len(),
            |i: int|
                spec_overlay_pixel(
                    base,
                    ov,
                    xo,
                    yo,
                    i % (base.width as int),
                    i / (base.width as int),
                ),
        ),
    }
}

/// One sprite drawn onto the tile: scaled to the zoom size, anchored
/// with its bottom-right occupied world tile at the stack position,
/// composited when its footprint overlaps the tile's window, and
/// skipped when it is degenerate or beyond the scaler's range.
pub open spec fn spec_draw_step(
    base: RasterV,
    sprite: RasterV,
    stack_x: u32,
    stack_y: u32,
    geo: RenderGeo,
) -> RasterV {
    if !spec_scalable(sprite, geo.scale) {
        base
    } else {
        let scaled = spec_scaled_of(sprite, geo.scale);
        if scaled.width == 0 || scaled.height == 0 {
            base
        } else {
            let tiles_wide = (scaled.width + geo.scale - 1) / (geo.scale as int);
            let tiles_high = (scaled.height + geo.scale - 1) / (geo.scale as int);
            let top_left_x = stack_x - (tiles_wide - 1);
            let top_left_y = stack_y - (tiles_high - 1);
            if top_left_x <= geo.tex && top_left_x + tiles_wide > geo.tsx && top_left_y <= geo.tey
                && top_left_y + tiles_high > geo.tsy {
                let px = (top_left_x - geo.tsx) * geo.scale;
                let py = (top_left_y - geo.tsy) * geo.scale;
                if offset_ok(px, py, scaled.width as int, scaled.height as int) {
                    spec_composite(base, scaled, px, py)
                } else {
                    base
                }
            } else {
                base
            }
        }
    }
}

/// One id of a stack's draw order: the sprite at the next fetch
/// position is drawn, and the fetched id (disguise resolved) recorded.
pub open spec fn spec_draw_one(
    base: RasterV,
    fetched: Seq<u32>,
    id: u32,
    cat: Map<u32, GameObjectV>,
    sprites: Seq<RasterV>,
    stack_x: u32,
    stack_y: u32,
    geo: RenderGeo,
) -> (RasterV, Seq<u32>) {
    (
        spec_draw_step(base, sprites[fetched.len() as int], stack_x, stack_y, geo),
        fetched.push(spec_sprite_id(cat, id)),
    )
}

/// A stack's whole draw order, drawn in order.
pub open spec fn spec_draw_ids(
    ids: Seq<u32>,
    cat: Map<u32, GameObjectV>,
    sprites: Seq<RasterV>,
    stack_x: u32,
    stack_y: u32,
    geo: RenderGeo,
    base: RasterV,
    fetched: Seq<u32>,
) -> (RasterV, Seq<u32>)
    decreases ids.len(),
{
    if ids.len() == 0 {
        (base, fetched)
    } else {
        let st = spec_draw_one(base, fetched, ids[0], cat, sprites, stack_x, stack_y, geo);
        spec_draw_ids(ids.skip(1), cat, sprites, stack_x, stack_y, geo, st.0, st.1)
    }
}

/// One stack folded into the tile: nothing outside the search
/// rectangle, else its classifier draw order, drawn bottom to top.
pub open spec fn spec_stack_step(
    base: RasterV,
    fetched: Seq<u32>,
    t: TileStackV,
    cat: Map<u32, GameObjectV>,
    sprites: Seq<RasterV>,
    geo: RenderGeo,
) -> (RasterV, Seq<u32>) {
    if in_search_rect(t, geo) {
        spec_draw_ids(
            spec_select_layers(t.object_ids, cat),
            cat,
            sprites,
            t.x,
            t.y,
            geo,
            base,
            fetched,
        )
    } else {
        (base, fetched)
    }
}

/// The whole tile: the stacks visited in their stored order, each
/// drawn per `spec_stack_step`, consuming `sprites` one image per
/// drawn id and recording which id each image was fetched for.
pub open spec fn spec_render_stacks(
    tiles: Seq<TileStackV>,
    cat: Map<u32, GameObjectV>,
    sprites: Seq<RasterV>,
    geo: RenderGeo,
    base: RasterV,
    fetched: Seq<u32>,
) -> (RasterV, Seq<u32>)
    decreases tiles.len(),
{
    if tiles.len() == 0 {
        (base, fetched)
    } else {
        let st = spec_stack_step(base, fetched, tiles[0], cat, sprites, geo);
        spec_render_stacks(tiles.skip(1), cat, sprites, geo, st.0, st.1)
    }
}

/// The ids fetched for a tile, in fetch order: for every stack of the
/// search rectangle, its draw order with disguises resolved.
pub open spec fn spec_fetched_of(
    tiles: Seq<TileStackV>,
    cat: Map<u32, GameObjectV>,
    geo: RenderGeo,
) -> Seq<u32>
    decreases tiles.len(),
{
    if tiles.len() == 0 {
        Seq::empty()
    } else {
        (if in_search_rect(tiles[0], geo) {
            spec_select_layers(tiles[0].object_ids, cat).map_values(
                |id: u32| spec_sprite_id(cat, id),
            )
        } else {
            Seq::empty()
        }) + spec_fetched_of(tiles.skip(1), cat, geo)
    }
}

/// The tile renderer's contract, up to the cache's answers: `out` is
/// the fold of the stacks over the blank tile with the given sprite
/// images, one per fetched id.
pub open spec fn spec_render_witness(
    out: RasterV,
    tiles: Seq<TileStackV>,
    cat: Map<u32, GameObjectV>,
    sprites: Seq<RasterV>,
    tile_x: u32,
    tile_y: u32,
    scale: u32,
    map_width: u32,
    map_height: u32,
) -> bool {
    let geo = spec_geometry(tile_x, tile_y, scale, map_width, map_height);
    let res = spec_render_stacks(tiles, cat, sprites, geo, spec_blank_tile(), Seq::empty());
    &&& (forall|i: int| 0 <= i < sprites.len() ==> raster_wf(#[trigger] sprites[i]))
    &&& res.1 == spec_fetched_of(tiles, cat, geo)
    &&& sprites.len() == res.1.len()
    &&& out == res.0
}

proof fn lemma_draw_ids_fetched(
    ids: Seq<u32>,
    cat: Map<u32, GameObjectV>,
    sprites: Seq<RasterV>,
    stack_x: u32,
    stack_y: u32,
    geo: RenderGeo,
    base: RasterV,
    fetched: Seq<u32>,
)
    ensures
        spec_draw_ids(ids, cat, sprites, stack_x, stack_y, geo, base, fetched).1 == fetched
            + ids.map_values(|id: u32| spec_sprite_id(cat, id)),
    decreases ids.len(),
{
    if ids.len() == 0 {
        assert(fetched + ids.map_values(|id: u32| spec_sprite_id(cat, id)) =~= fetched);
    } else {
        let st = spec_draw_one(base, fetched, ids[0], cat, sprites, stack_x, stack_y, geo);
        lemma_draw_ids_fetched(ids.skip(1), cat, sprites, stack_x, stack_y, geo, st.0, st.1);
        assert(fetched.push(spec_sprite_id(cat, ids[0])) + ids.skip(1).map_values(
            |id: u32| spec_sprite_id(cat, id),
        ) =~= fetched + ids.map_values(|id: u32| spec_sprite_id(cat, id)));
    }
}

proof fn lemma_stacks_fetched(
    tiles: Seq<TileStackV>,
    cat: Map<u32, GameObjectV>,
    sprites: Seq<RasterV>,
    geo: RenderGeo,
    base: RasterV,
    fetched: Seq<u32>,
)
    ensures
        spec_render_stacks(tiles, cat, sprites, geo, base, fetched).1 == fetched + spec_fetched_of(
            tiles,
            cat,
            geo,
        ),
    decreases tiles.len(),
{
    if tiles.len() == 0 {
        assert(fetched + spec_fetched_of(tiles, cat, geo) =~= fetched);
    } else {
        let st = spec_stack_step(base, fetched, tiles[0], cat, sprites, geo);
        if in_search_rect(tiles[0], geo) {
            lemma_draw_ids_fetched(
                spec_select_layers(tiles[0].object_ids, cat),
                cat,
                sprites,
                tiles[0].x,
                tiles[0].y,
                geo,
                base,
                fetched,
            );
        }
        lemma_stacks_fetched(tiles.skip(1), cat, sprites, geo, st.0, st.1);
        assert(st.1 + spec_fetched_of(tiles.skip(1), cat, geo) =~= fetched + spec_fetched_of(
            tiles,
            cat,
            geo,
        ));
    }
}

/// The fold reads only the sprite positions it consumes: extending the
/// sprite list beyond them changes nothing.
proof fn lemma_draw_ids_frame(
    ids: Seq<u32>,
    cat: Map<u32, GameObjectV>,
    s1: Seq<RasterV>,
    s2: Seq<RasterV>,
    stack_x: u32,
    stack_y: u32,
    geo: RenderGeo,
    base: RasterV,
    fetched: Seq<u32>,
)
    requires
        s1.len() <= s2.len(),
        forall|j: int| 0 <= j < s1.len() ==> s1[j] == s2[j],
        fetched.len() + ids.len() <= s1.len(),
    ensures
        spec_draw_ids(ids, cat, s1, stack_x, stack_y, geo, base, fetched) == spec_draw_ids(
            ids,
            cat,
            s2,
            stack_x,
            stack_y,
            geo,
            base,
            fetched,
        ),
    decreases ids.len(),
{
    if ids.len() > 0 {
        assert(s1[fetched.len() as int] == s2[fetched.len() as int]);
        let st = spec_draw_one(base, fetched, ids[0], cat, s1, stack_x, stack_y, geo);
        lemma_draw_ids_frame(ids.skip(1), cat, s1, s2, stack_x, stack_y, geo, st.0, st.1);
    }
}

proof fn lemma_stacks_frame(
    tiles: Seq<TileStackV>,
    cat: Map<u32, GameObjectV>,
    s1: Seq<RasterV>,
    s2: Seq<RasterV>,
    geo: RenderGeo,
    base: RasterV,
    fetched: Seq<u32>,
)
    requires
        s1.len() <= s2.len(),
        forall|j: int| 0 <= j < s1.len() ==> s1[j] == s2[j],
        fetched.len() + spec_fetched_of(tiles, cat, geo).len() <= s1.len(),
    ensures
        spec_render_stacks(tiles, cat, s1, geo, base, fetched) == spec_render_stacks(
            tiles,
            cat,
            s2,
            geo,
            base,
            fetched,
        ),
    decreases tiles.len(),
{
    if tiles.len() > 0 {
        let st = spec_stack_step(base, fetched, tiles[0], cat, s1, geo);
        if in_search_rect(tiles[0], geo) {
            let ids = spec_select_layers(tiles[0].object_ids, cat);
            lemma_draw_ids_frame(ids, cat, s1, s2, tiles[0].x, tiles[0].y, geo, base, fetched);
            lemma_draw_ids_fetched(ids, cat, s1, tiles[0].x, tiles[0].y, geo, base, fetched);
        }
        lemma_stacks_frame(tiles.skip(1), cat, s1, s2, geo, st.0, st.1);
    }
}

/// How the stack fold grows by one stack.
proof fn lemma_stacks_snoc(
    tiles: Seq<TileStackV>,
    n: int,
    cat: Map<u32, GameObjectV>,
    sprites: Seq<RasterV>,
    geo: RenderGeo,
    base: RasterV,
    fetched: Seq<u32>,
)
    requires
        0 <= n < tiles.len(),
    ensures
        spec_render_stacks(tiles.take(n + 1), cat, sprites, geo, base, fetched) == ({
            let acc = spec_render_stacks(tiles.take(n), cat, sprites, geo, base, fetched);
            spec_stack_step(acc.0, acc.1, tiles[n], cat, sprites, geo)
        }),
    decreases n,
{
    if n == 0 {
        let st = spec_stack_step(base, fetched, tiles[0], cat, sprites, geo);
        assert(tiles.take(1)[0] == tiles[0]);
        assert(tiles.take(1).skip(1) =~= Seq::<TileStackV>::empty());
        assert(tiles.take(0) =~= Seq::<TileStackV>::empty());
        assert(spec_render_stacks(tiles.take(0), cat, sprites, geo, base, fetched) == (
            base,
            fetched,
        ));
        assert(spec_render_stacks(Seq::<TileStackV>::empty(), cat, sprites, geo, st.0, st.1) == st);
        assert(spec_render_stacks(tiles.take(1), cat, sprites, geo, base, fetched)
            == spec_render_stacks(tiles.take(1).skip(1), cat, sprites, geo, st.0, st.1));
    } else {
        let st = spec_stack_step(base, fetched, tiles[0], cat, sprites, geo);
        lemma_stacks_snoc(tiles.skip(1), n - 1, cat, sprites, geo, st.0, st.1);
        assert(tiles.take(n + 1)[0] == tiles[0]);
        assert(tiles.take(n)[0] == tiles[0]);
        assert(tiles.take(n + 1).skip(1) =~= tiles.skip(1).take(n));
        assert(tiles.take(n).skip(1) =~= tiles.skip(1).take(n - 1));
        assert(tiles.skip(1)[n - 1] == tiles[n]);
        assert(spec_render_stacks(tiles.take(n + 1), cat, sprites, geo, base, fetched)
            == spec_render_stacks(tiles.take(n + 1).skip(1), cat, sprites, geo, st.0, st.1));
        assert(spec_render_stacks(tiles.take(n), cat, sprites, geo, base, fetched)
            == spec_render_stacks(tiles.take(n).skip(1), cat, sprites, geo, st.0, st.1));
    }
}

/// How the per-stack draw fold grows by one id.
proof fn lemma_draw_snoc(
    ids: Seq<u32>,
    n: int,
    cat: Map<u32, GameObjectV>,
    sprites: Seq<RasterV>,
    stack_x: u32,
    stack_y: u32,
    geo: RenderGeo,
    base: RasterV,
    fetched: Seq<u32>,
)
    requires
        0 <= n < ids.len(),
    ensures
        spec_draw_ids(ids.take(n + 1), cat, sprites, stack_x, stack_y, geo, base, fetched) == ({
            let acc = spec_draw_ids(ids.take(n), cat, sprites, stack_x, stack_y, geo, base, fetched);
            spec_draw_one(acc.0, acc.1, ids[n], cat, sprites, stack_x, stack_y, geo)
        }),
    decreases n,
{
    if n == 0 {
        let st = spec_draw_one(base, fetched, ids[0], cat, sprites, stack_x, stack_y, geo);
        assert(ids.take(1)[0] == ids[0]);
        assert(ids.take(1).skip(1) =~= Seq::<u32>::empty());
        assert(ids.take(0) =~= Seq::<u32>::empty());
        assert(spec_draw_ids(ids.take(0), cat, sprites, stack_x, stack_y, geo, base, fetched) == (
            base,
            fetched,
        ));
        assert(spec_draw_ids(Seq::<u32>::empty(), cat, sprites, stack_x, stack_y, geo, st.0, st.1)
            == st);
        assert(spec_draw_ids(ids.take(1), cat, sprites, stack_x, stack_y, geo, base, fetched)
            == spec_draw_ids(ids.take(1).skip(1), cat, sprites, stack_x, stack_y, geo, st.0, st.1));
    } else {
        let st = spec_draw_one(base, fetched, ids[0], cat, sprites, stack_x, stack_y, geo);
        lemma_draw_snoc(ids.skip(1), n - 1, cat, sprites, stack_x, stack_y, geo, st.0, st.1);
        assert(ids.take(n + 1)[0] == ids[0]);
        assert(ids.take(n)[0] == ids[0]);
        assert(ids.take(n + 1).skip(1) =~= ids.skip(1).take(n));
        assert(ids.take(n).skip(1) =~= ids.skip(1).take(n - 1));
        assert(ids.skip(1)[n - 1] == ids[n]);
        assert(spec_draw_ids(ids.take(n + 1), cat, sprites, stack_x, stack_y, geo, base, fetched)
            == spec_draw_ids(ids.take(n + 1).skip(1), cat, sprites, stack_x, stack_y, geo, st.0,
            st.1));
        assert(spec_draw_ids(ids.take(n), cat, sprites, stack_x, stack_y, geo, base, fetched)
            == spec_draw_ids(ids.take(n).skip(1), cat, sprites, stack_x, stack_y, geo, st.0,
            st.1));
    }
}

/// A 256x256 raster overlaid pointwise is the spec-level composite.
proof fn lemma_composite_bridge(prev: RasterV, cur: RasterV, ov: RasterV, xo: int, yo: int)
    requires
        prev.width == 256,
        prev.height == 256,
        prev.pixels.len() == 256 * 256,
        cur.width == 256,
        cur.height == 256,
        cur.pixels.len() == 256 * 256,
        forall|x: int, y: int|
            0 <= x < 256 && 0 <= y < 256 ==> cur.pixels[pix_at(256, x, y)] == spec_overlay_pixel(
                prev,
                ov,
                xo,
                yo,
                x,
                y,
            ),
    ensures
        cur == spec_composite(prev, ov, xo, yo),
{
    let want = spec_composite(prev, ov, xo, yo);
    assert forall|i: int| 0 <= i < cur.pixels.len() implies cur.pixels[i] == want.pixels[i] by {
        let x = i % 256;
        let y = i / 256;
        assert(0 <= x < 256);
        assert(0 <= y < 256);
        assert(i == y * 256 + x);
        assert(cur.pixels[pix_at(256, x, y)] == spec_overlay_pixel(prev, ov, xo, yo, x, y));
    }
    assert(cur.pixels =~= want.pixels);
}

/// Composites one 256x256 output tile of a floor at one zoom scale.
///
/// The world rectangle the tile covers is scanned with a margin of the
/// largest possible sprite footprint; the floor's stacks are visited in
/// their stored back-to-front order, each stack's draw order comes from
/// the classifier, a disguised object contributes its target's sprite,
/// and every sprite is scaled and source-over composited at its
/// bottom-right anchor. A sprite the cache cannot supply paints the
/// placeholder; a sprite beyond the scaler's arithmetic range is
/// skipped.
///
/// The contract fixes everything but the cache's answers: the result
/// is the stack fold of `spec_render_stacks` for some list of
/// well-formed sprite images, one per fetched id of
/// `spec_fetched_of`; a floor without stacks yields the fully
/// transparent tile.
pub fn render_tile(
    map_data: &SpriteMapData,
    sprite_cache: &SpriteCache,
    objects: &ObjectCatalog,
    tile_x: u32,
    tile_y: u32,
    scale: u32,
    map_width: u32,
    map_height: u32,
) -> (r: Raster)
    requires
        sprite_cache.wf(),
        1 <= scale <= 65536,
        (tile_x + 1) * 256 <= u32::MAX,
        (tile_y + 1) * 256 <= u32::MAX,
        map_width <= u32::MAX - 64,
        map_height <= u32::MAX - 64,
    ensures
        r.wf(),
        r.width == 256,
        r.height == 256,
        map_data.tiles@.len() == 0 ==> (forall|i: int|
            0 <= i < r@.pixels.len() ==> r@.pixels[i] == (Pixel { r: 0, g: 0, b: 0, a: 0 })),
        exists|sprites: Seq<RasterV>| #[trigger] spec_render_witness(
            r@,
            stack_views(map_data.tiles@),
            objects@,
            sprites,
            tile_x,
            tile_y,
            scale,
            map_width,
            map_height,
        ),
{
    let ghost cat = objects@;
    let ghost tv = stack_views(map_data.tiles@);
    let ghost geo = spec_geometry(tile_x, tile_y, scale, map_width, map_height);

    let mut output = Raster::filled(256, 256, Pixel { r: 0, g: 0, b: 0, a: 0 });
    proof {
        assert(output@.pixels =~= spec_blank_tile().pixels);
        assert(output@ == spec_blank_tile());
    }

    let tile_start_x = tile_x * 256 / scale;
    let tile_start_y = tile_y * 256 / scale;
    let end_x_raw = (tile_x + 1) * 256 / scale;
    let tile_end_x = if end_x_raw < map_width {
        end_x_raw
    } else {
        map_width
    };
    let end_y_raw = (tile_y + 1) * 256 / scale;
    let tile_end_y = if end_y_raw < map_height {
        end_y_raw
    } else {
        map_height
    };

    // widest footprint, in world tiles, of a raw sprite of up to 64 px
    let max_sprite_tiles = (64 + scale - 1) / scale;
    proof {
        vstd::arithmetic::div_mod::lemma_fundamental_div_mod((63 + scale) as int, scale as int);
        assert(max_sprite_tiles <= 64) by (nonlinear_arith)
            requires
                scale >= 1,
                63 + scale == (scale as int) * (((63 + scale) as int) / (scale as int)) + ((63
                    + scale) as int) % (scale as int),
                0 <= ((63 + scale) as int) % (scale as int) < scale,
                max_sprite_tiles == ((63 + scale) as int) / (scale as int),
        ;
    }

    let search_start_x = if tile_start_x >= max_sprite_tiles {
        tile_start_x - max_sprite_tiles
    } else {
        0
    };
    let search_start_y = if tile_start_y >= max_sprite_tiles {
        tile_start_y - max_sprite_tiles
    } else {
        0
    };
    let search_end_x = tile_end_x + max_sprite_tiles;
    let search_end_y = tile_end_y + max_sprite_tiles;
    proof {
        assert(geo.scale == scale);
        assert(geo.tsx == tile_start_x as int);
        assert(geo.tsy == tile_start_y as int);
        assert(geo.tex == tile_end_x as int);
        assert(geo.tey == tile_end_y as int);
        assert(geo.ssx == search_start_x as int);
        assert(geo.ssy == search_start_y as int);
        assert(geo.sex == search_end_x as int);
        assert(geo.sey == search_end_y as int);
    }

    let ghost mut used: Seq<RasterV> = Seq::empty();
    let ghost mut fetched_g: Seq<u32> = Seq::empty();
    proof {
        assert(tv.take(0) =~= Seq::<TileStackV>::empty());
    }
    let mut i: usize = 0;
    while i < map_data.tiles.len()
        invariant
            sprite_cache.wf(),
            cat == objects@,
            tv == stack_views(map_data.tiles@),
            geo == spec_geometry(tile_x, tile_y, scale, map_width, map_height),
            1 <= scale <= 65536,
            geo.scale == scale,
            geo.tsx == tile_start_x as int,
            geo.tsy == tile_start_y as int,
            geo.tex == tile_end_x as int,
            geo.tey == tile_end_y as int,
            geo.ssx == search_start_x as int,
            geo.ssy == search_start_y as int,
            geo.sex == search_end_x as int,
            geo.sey == search_end_y as int,
            i <= tv.len(),
            output.wf(),
            output.width == 256,
            output.height == 256,
            forall|j: int| 0 <= j < used.len() ==> raster_wf(#[trigger] used[j]),
            fetched_g.len() == used.len(),
            spec_render_stacks(tv.take(i as int), cat, used, geo, spec_blank_tile(), Seq::empty())
                == (output@, fetched_g),
        decreases tv.len() - i,
    {
        let stack_x = map_data.tiles[i].x;
        let stack_y = map_data.tiles[i].y;
        proof {
            assert(map_data.tiles@[i as int]@ == tv[i as int]);
        }
        if !(stack_x < search_start_x || stack_x >= search_end_x || stack_y < search_start_y
            || stack_y >= search_end_y) {
            assert(in_search_rect(tv[i as int], geo));
            let draw_order = select_sprite_layers(&map_data.tiles[i].object_ids, objects);
            let ghost dv = spec_select_layers(tv[i as int].object_ids, cat);
            let ghost base_start = output@;
            let ghost fetched_start = fetched_g;
            proof {
                assert(draw_order@ == dv);
                assert(dv.take(0) =~= Seq::<u32>::empty());
            }
            let mut k: usize = 0;
            while k < draw_order.len()
                invariant
                    sprite_cache.wf(),
                    cat == objects@,
                    1 <= scale <= 65536,
                    geo.scale == scale,
                    geo.tsx == tile_start_x as int,
                    geo.tsy == tile_start_y as int,
                    geo.tex == tile_end_x as int,
                    geo.tey == tile_end_y as int,
                    draw_order@ == dv,
                    k <= dv.len(),
                    stack_x == tv[i as int].x,
                    stack_y == tv[i as int].y,
                    0 <= i < tv.len(),
                    output.wf(),
                    output.width == 256,
                    output.height == 256,
                    base_start.width == 256,
                    base_start.height == 256,
                    base_start.pixels.len() == 256 * 256,
                    forall|j: int| 0 <= j < used.len() ==> raster_wf(#[trigger] used[j]),
                    fetched_start.len() + k == used.len(),
                    fetched_g.len() == used.len(),
                    spec_render_stacks(
                        tv.take(i as int),
                        cat,
                        used,
                        geo,
                        spec_blank_tile(),
                        Seq::empty(),
                    ) == (base_start, fetched_start),
                    spec_draw_ids(
                        dv.take(k as int),
                        cat,
                        used,
                        stack_x,
                        stack_y,
                        geo,
                        base_start,
                        fetched_start,
                    ) == (output@, fetched_g),
                decreases dv.len() - k,
            {
                let obj_id = draw_order[k];
                let sprite_id = match objects.get(obj_id) {
                    Some(o) => match o.disguise_target {
                        Some(d) => d,
                        None => obj_id,
                    },
                    None => obj_id,
                };
                assert(sprite_id == spec_sprite_id(cat, obj_id));
                let sprite = sprite_cache.get_sprite(sprite_id);
                let ghost used0 = used;
                let ghost out0 = output@;
                proof {
                    used = used.push(sprite@);
                    lemma_stacks_fetched(
                        tv.take(i as int),
                        cat,
                        used0,
                        geo,
                        spec_blank_tile(),
                        Seq::empty(),
                    );
                    assert(Seq::<u32>::empty() + spec_fetched_of(tv.take(i as int), cat, geo)
                        =~= spec_fetched_of(tv.take(i as int), cat, geo));
                    lemma_stacks_frame(
                        tv.take(i as int),
                        cat,
                        used0,
                        used,
                        geo,
                        spec_blank_tile(),
                        Seq::empty(),
                    );
                    lemma_draw_ids_frame(
                        dv.take(k as int),
                        cat,
                        used0,
                        used,
                        stack_x,
                        stack_y,
                        geo,
                        base_start,
                        fetched_start,
                    );
                    lemma_draw_snoc(
                        dv,
                        k as int,
                        cat,
                        used,
                        stack_x,
                        stack_y,
                        geo,
                        base_start,
                        fetched_start,
                    );
                    assert(used[fetched_g.len() as int] == sprite@);
                }
                if scalable(&sprite, scale) {
                    let scaled = scale_sprite(&sprite, scale);
                    let sw = scaled.width;
                    let sh = scaled.height;
                    proof {
                        vstd::arithmetic::div_mod::lemma_div_is_ordered(
                            sprite@.width * scale + 16,
                            u32::MAX as int,
                            32,
                        );
                        vstd::arithmetic::div_mod::lemma_div_is_ordered(
                            sprite@.height * scale + 16,
                            u32::MAX as int,
                            32,
                        );
                        assert(scaled@ == spec_scaled_of(sprite@, scale));
                    }
                    if sw > 0 && sh > 0 {
                        let tiles_wide = (sw + (scale - 1)) / scale;
                        let tiles_high = (sh + (scale - 1)) / scale;

                        // the stack position anchors the sprite's
                        // bottom-right occupied tile
                        let top_left_x: i64 = (stack_x as i64) - ((tiles_wide as i64) - 1);
                        let top_left_y: i64 = (stack_y as i64) - ((tiles_high as i64) - 1);
                        let span_end_x: i64 = top_left_x + (tiles_wide as i64);
                        let span_end_y: i64 = top_left_y + (tiles_high as i64);

                        if top_left_x <= (tile_end_x as i64) && span_end_x > (tile_start_x as i64)
                            && top_left_y <= (tile_end_y as i64) && span_end_y
                            > (tile_start_y as i64) {
                            proof {
                                assert((top_left_x - (tile_start_x as i64)) * (scale as i64)
                                    <= 0x7fff_ffff_ffff_ffff && (top_left_x - (
                                tile_start_x as i64)) * (scale as i64)
                                    >= -0x8000_0000_0000_0000) by (nonlinear_arith)
                                    requires
                                        -0x2_0000_0000 <= top_left_x - (tile_start_x as i64)
                                            <= 0x2_0000_0000,
                                        1 <= (scale as i64) <= 65536,
                                ;
                                assert((top_left_y - (tile_start_y as i64)) * (scale as i64)
                                    <= 0x7fff_ffff_ffff_ffff && (top_left_y - (
                                tile_start_y as i64)) * (scale as i64)
                                    >= -0x8000_0000_0000_0000) by (nonlinear_arith)
                                    requires
                                        -0x2_0000_0000 <= top_left_y - (tile_start_y as i64)
                                            <= 0x2_0000_0000,
                                        1 <= (scale as i64) <= 65536,
                                ;
                            }
                            let px: i64 = (top_left_x - (tile_start_x as i64)) * (scale as i64);
                            let py: i64 = (top_left_y - (tile_start_y as i64)) * (scale as i64);
                            if px < 256 && py < 256 && px + (sw as i64) > -0x8000_0000i64 && py
                                + (sh as i64) > -0x8000_0000i64 && px >= -0x8000_0000i64 && py
                                >= -0x8000_0000i64 {
                                overlay_with_alpha(&mut output, &scaled, px as i32, py as i32);
                                proof {
                                    lemma_composite_bridge(
                                        out0,
                                        output@,
                                        scaled@,
                                        px as int,
                                        py as int,
                                    );
                                    assert(output@ == spec_draw_step(
                                        out0,
                                        sprite@,
                                        stack_x,
                                        stack_y,
                                        geo,
                                    ));
                                }
                            } else {
                                proof {
                                    assert(!offset_ok(
                                        px as int,
                                        py as int,
                                        sw as int,
                                        sh as int,
                                    ));
                                    assert(output@ == spec_draw_step(
                                        out0,
                                        sprite@,
                                        stack_x,
                                        stack_y,
                                        geo,
                                    ));
                                }
                            }
                        } else {
                            proof {
                                assert(output@ == spec_draw_step(
                                    out0,
                                    sprite@,
                                    stack_x,
                                    stack_y,
                                    geo,
                                ));
                            }
                        }
                    } else {
                        proof {
                            assert(output@ == spec_draw_step(
                                out0,
                                sprite@,
                                stack_x,
                                stack_y,
                                geo,
                            ));
                        }
                    }
                } else {
                    proof {
                        assert(output@ == spec_draw_step(out0, sprite@, stack_x, stack_y, geo));
                    }
                }
                proof {
                    fetched_g = fetched_g.push(sprite_id);
                    assert(spec_draw_ids(
                        dv.take(k + 1 as int),
                        cat,
                        used,
                        stack_x,
                        stack_y,
                        geo,
                        base_start,
                        fetched_start,
                    ) == (output@, fetched_g));
                }
                k = k + 1;
            }
            proof {
                assert(dv.take(k as int) =~= dv);
                lemma_stacks_snoc(tv, i as int, cat, used, geo, spec_blank_tile(), Seq::empty());
                assert(spec_render_stacks(
                    tv.take(i + 1 as int),
                    cat,
                    used,
                    geo,
                    spec_blank_tile(),
                    Seq::empty(),
                ) == (output@, fetched_g));
            }
        } else {
            proof {
                assert(!in_search_rect(tv[i as int], geo));
                lemma_stacks_snoc(tv, i as int, cat, used, geo, spec_blank_tile(), Seq::empty());
                assert(spec_render_stacks(
                    tv.take(i + 1 as int),
                    cat,
                    used,
                    geo,
                    spec_blank_tile(),
                    Seq::empty(),
                ) == (output@, fetched_g));
            }
        }
        i = i + 1;
    }
    proof {
        assert(tv.take(i as int) =~= tv);
        lemma_stacks_fetched(tv, cat, used, geo, spec_blank_tile(), Seq::empty());
        assert(Seq::<u32>::empty() + spec_fetched_of(tv, cat, geo) =~= spec_fetched_of(
            tv,
            cat,
            geo,
        ));
        assert(spec_render_witness(
            output@,
            tv,
            cat,
            used,
            tile_x,
            tile_y,
            scale,
            map_width,
            map_height,
        ));
        if tv.len() == 0 {
            assert(output@ == spec_blank_tile());
        }
    }
    output
}

} // verus!
