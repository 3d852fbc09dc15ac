//! The sprite cache: a thread-safe, lazily filled store of decoded
//! sprite images, with a checkerboard placeholder for anything that
//! cannot be loaded.

use vstd::prelude::*;
use dashmap::DashMap;
use crate::raster::{Raster, create_missing_sprite, spec_checker_pixel, pix_at};

verus! {

#[verifier::external_type_specification]
#[verifier::external_body]
#[verifier::reject_recursive_types(K)]
#[verifier::reject_recursive_types(V)]
#[verifier::reject_recursive_types(S)]
pub struct ExDashMap<K, V, S>(DashMap<K, V, S>);

/// Relies on DashMap::new for an empty concurrent map.
#[verifier::external_body]
fn new_cache_map() -> DashMap<u32, Raster> {
    DashMap::new()
}

/// Relies on DashMap::get: a clone of the cached image, if one is
/// there. The concurrent map decides nothing this library's contracts
/// speak of, so nothing is assumed of the outcome; the caller checks
/// the shape of whatever comes back.
#[verifier::external_body]
fn cache_get(m: &DashMap<u32, Raster>, id: u32) -> Option<Raster> {
    m.get(&id).map(|r| r.value().clone())
}

/// Relies on DashMap::insert to store a decoded image under its id.
#[verifier::external_body]
fn cache_insert(m: &DashMap<u32, Raster>, id: u32, v: Raster) {
    m.insert(id, v);
}

/// Relies on DashMap::len for the number of cached entries.
#[verifier::external_body]
fn cache_len(m: &DashMap<u32, Raster>) -> usize {
    m.len()
}

/// Relies on std::path::Path::exists; the answer depends on the disk,
/// so nothing is assumed of it.
#[verifier::external_body]
fn dir_exists(path: &str) -> bool {
    std::path::Path::new(path).exists()
}

/// Relies on image::open and DynamicImage::to_rgba8: the decoded RGBA
/// samples of the file `<dir>/<id>.png`, row-major, whose buffer holds
/// exactly four bytes per pixel of the reported dimensions. What is
/// decoded depends on the disk, so only the buffer shape is assumed.
#[verifier::external_body]
fn load_image_file(dir: &str, id: u32) -> (r: Result<(u32, u32, Vec<u8>), String>)
    ensures
        (r matches Ok(t) ==> t.2@.len() == t.0 * t.1 * 4),
{
    let path = std::path::Path::new(dir).join(format!("{}.png", id));
    match image::open(&path) {
        Ok(img) => {
            let rgba = img.to_rgba8();
            let (w, h) = rgba.dimensions();
            Ok((w, h, rgba.into_raw()))
        },
        Err(e) => Err(e.to_string()),
    }
}

/// Errors of the sprite cache: the sprite directory itself is missing.
#[derive(Debug, PartialEq, Eq, Structural, Clone, Copy)]
pub enum CacheError {
    MissingDirectory,
}

/// The checkerboard placeholder, as a predicate on a raster.
pub open spec fn is_placeholder(r: crate::raster::RasterV) -> bool {
    &&& r.width == 32
    &&& r.height == 32
    &&& r.pixels.len() == 32 * 32
    &&& forall|x: int, y: int|
        0 <= x < 32 && 0 <= y < 32 ==> r.pixels[pix_at(32, x, y)] == spec_checker_pixel(x, y)
}

/// Thread-safe id-to-image store over a sprite directory. Images are
/// decoded on first use and kept; a sprite that cannot be loaded is
/// answered with the placeholder, never with an error.
pub struct SpriteCache {
    sprites: DashMap<u32, Raster>,
    sprite_path: String,
    missing_sprite: Raster,
}

/// Whether a load outcome carries a buffer that covers its grid.
pub open spec fn load_shaped(outcome: Result<(u32, u32, Vec<u8>), String>) -> bool {
    match outcome {
        Ok(t) => t.2@.len() == t.0 * t.1 * 4,
        Err(_) => false,
    }
}

/// The cache's fallback rule, as a function of the load outcome: a
/// well-shaped buffer becomes the decoded image, anything else becomes
/// the checkerboard placeholder — a failed load never fails the caller.
/// The second component says whether the outcome decoded.
pub fn decode_or_placeholder(outcome: Result<(u32, u32, Vec<u8>), String>, placeholder: &Raster)
    -> (r: (Raster, bool))
    requires
        placeholder.wf(),
        is_placeholder(placeholder@),
    ensures
        r.0.wf(),
        r.1 == load_shaped(outcome),
        load_shaped(outcome) ==> (outcome matches Ok(t) && r.0.width == t.0 && r.0.height == t.1
            && r.0@.pixels == crate::raster::spec_pixels_of(t.2@)),
        !load_shaped(outcome) ==> is_placeholder(r.0@),
{
    match outcome {
        Ok((w, h, data)) => {
            match Raster::from_rgba_bytes(w, h, &data) {
                Some(img) => (img, true),
                None => (duplicate(placeholder), false),
            }
        },
        Err(_) => (duplicate(placeholder), false),
    }
}

impl SpriteCache {
    /// The placeholder held by the cache is the checkerboard.
    pub closed spec fn wf(&self) -> bool {
        self.missing_sprite.wf() && is_placeholder(self.missing_sprite@)
    }

    /// The directory the cache loads sprites from.
    pub closed spec fn dir(&self) -> Seq<char> {
        self.sprite_path@
    }

    /// Opens a cache over a sprite directory; the directory must exist.
    pub fn new(sprite_path: &str) -> (r: Result<SpriteCache, CacheError>)
        ensures
            (r matches Ok(c) ==> c.wf() && c.dir() == sprite_path@),
    {
        if !dir_exists(sprite_path) {
            return Err(CacheError::MissingDirectory);
        }
        Ok(
            SpriteCache {
                sprites: new_cache_map(),
                sprite_path: sprite_path.to_owned(),
                missing_sprite: create_missing_sprite(),
            },
        )
    }

    /// The image of one object id, and whether the placeholder stood in
    /// for it: the cached copy, else the decoded file `<id>.png`, else
    /// the checkerboard placeholder. Never fails.
    pub fn fetch_sprite(&self, id: u32) -> (r: (Raster, bool))
        requires
            self.wf(),
        ensures
            r.0.wf(),
            r.1 ==> is_placeholder(r.0@),
    {
        match cache_get(&self.sprites, id) {
            Some(img) => {
                if raster_shaped(&img) {
                    return (img, false);
                }
                // a malformed cache entry cannot happen: only
                // well-formed rasters are inserted below
            },
            None => {},
        }
        let outcome = load_image_file(self.sprite_path.as_str(), id);
        let (img, decoded) = decode_or_placeholder(outcome, &self.missing_sprite);
        if decoded {
            cache_insert(&self.sprites, id, duplicate(&img));
        }
        (img, !decoded)
    }

    /// The image of one object id: the cached copy, else the decoded
    /// file `<id>.png`, else the checkerboard placeholder. Never fails.
    pub fn get_sprite(&self, id: u32) -> (r: Raster)
        requires
            self.wf(),
        ensures
            r.wf(),
    {
        let (img, _fallback) = self.fetch_sprite(id);
        img
    }

    /// Warms the cache up for a list of ids; missing sprites are
    /// already absorbed by the placeholder, so this cannot fail.
    pub fn preload_sprites(&self, object_ids: &Vec<u32>) -> (r: Result<(), CacheError>)
        requires
            self.wf(),
        ensures
            r is Ok,
    {
        let mut i: usize = 0;
        while i < object_ids.len()
            invariant
                self.wf(),
            decreases object_ids@.len() - i,
        {
            let _sprite = self.get_sprite(object_ids[i]);
            i = i + 1;
        }
        Ok(())
    }

    /// Number of distinct cached entries, for observability.
    pub fn cache_size(&self) -> usize {
        cache_len(&self.sprites)
    }
}

/// Whether the pixel list covers the stated grid.
fn raster_shaped(r: &Raster) -> (ok: bool)
    ensures
        ok == r.wf(),
{
    let n = r.pixels.len();
    proof {
        assert((r.width as int) * (r.height as int) <= 0xffff_ffff * 0xffff_ffff)
            by (nonlinear_arith)
            requires
                r.width <= 0xffff_ffffu32,
                r.height <= 0xffff_ffffu32,
        ;
    }
    (n as u64) == (r.width as u64) * (r.height as u64)
}

/// An exact copy of a raster.
pub fn duplicate(r: &Raster) -> (c: Raster)
    ensures
        c@ == r@,
        c.wf() == r.wf(),
{
    let mut pixels: Vec<crate::raster::Pixel> = Vec::new();
    let mut i: usize = 0;
    let n = r.pixels.len();
    while i < n
        invariant
            n == r@.pixels.len(),
            i <= n,
            pixels@ == r@.pixels.take(i as int),
        decreases n - i,
    {
        pixels.push(r.pixels[i]);
        i = i + 1;
        proof {
            assert(pixels@ =~= r@.pixels.take(i as int));
        }
    }
    proof {
        assert(r@.pixels.take(n as int) =~= r@.pixels);
    }
    Raster { width: r.width, height: r.height, pixels }
}

} // verus!
