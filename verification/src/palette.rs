//! The flat-colour palette: a fixed minimap palette and a rule that
//! assigns every catalog object a colour from its name and passability.

use vstd::prelude::*;
use std::collections::HashMap;
use crate::bytes::{contains_seq, spec_contains_seq, spec_lower, to_lower};
use crate::objects::ObjectCatalog;

verus! {

broadcast use vstd::std_specs::hash::group_hash_axioms;

/// One opaque colour.
#[derive(Clone, Copy, Debug, PartialEq, Eq, Structural)]
pub struct Rgb {
    pub r: u8,
    pub g: u8,
    pub b: u8,
}

impl Rgb {
    pub fn new(r: u8, g: u8, b: u8) -> (c: Rgb)
        ensures
            c == (Rgb { r, g, b }),
    {
        Rgb { r, g, b }
    }
}

/// The fixed minimap palette, keyed by the legacy colour codes.
pub open spec fn spec_tibia_palette() -> Map<u8, Rgb> {
    map![
        0x00u8 => Rgb { r: 0, g: 0, b: 0 },
        0x0Cu8 => Rgb { r: 0, g: 128, b: 0 },
        0x18u8 => Rgb { r: 0, g: 255, b: 0 },
        0x33u8 => Rgb { r: 0, g: 128, b: 255 },
        0x56u8 => Rgb { r: 128, g: 128, b: 128 },
        0x72u8 => Rgb { r: 139, g: 69, b: 19 },
        0x79u8 => Rgb { r: 165, g: 42, b: 42 },
        0x81u8 => Rgb { r: 192, g: 192, b: 192 },
        0x8Cu8 => Rgb { r: 144, g: 238, b: 144 },
        0xB3u8 => Rgb { r: 173, g: 216, b: 230 },
        0xBAu8 => Rgb { r: 255, g: 0, b: 0 },
        0xC0u8 => Rgb { r: 255, g: 140, b: 0 },
        0xCFu8 => Rgb { r: 245, g: 222, b: 179 },
        0xD2u8 => Rgb { r: 255, g: 255, b: 0 },
        0xD7u8 => Rgb { r: 255, g: 255, b: 255 },
    ]
}

/// The legacy minimap palette: colour code to RGB.
pub fn get_tibia_palette() -> (m: HashMap<u8, Rgb>)
    ensures
        m@ == spec_tibia_palette(),
{
    let mut m: HashMap<u8, Rgb> = HashMap::new();
    m.insert(0x00, Rgb::new(0, 0, 0));
    m.insert(0x0C, Rgb::new(0, 128, 0));
    m.insert(0x18, Rgb::new(0, 255, 0));
    m.insert(0x33, Rgb::new(0, 128, 255));
    m.insert(0x56, Rgb::new(128, 128, 128));
    m.insert(0x72, Rgb::new(139, 69, 19));
    m.insert(0x79, Rgb::new(165, 42, 42));
    m.insert(0x81, Rgb::new(192, 192, 192));
    m.insert(0x8C, Rgb::new(144, 238, 144));
    m.insert(0xB3, Rgb::new(173, 216, 230));
    m.insert(0xBA, Rgb::new(255, 0, 0));
    m.insert(0xC0, Rgb::new(255, 140, 0));
    m.insert(0xCF, Rgb::new(245, 222, 179));
    m.insert(0xD2, Rgb::new(255, 255, 0));
    m.insert(0xD7, Rgb::new(255, 255, 255));
    proof {
        assert(m@ =~= spec_tibia_palette());
    }
    m
}

pub open spec fn spec_pat_water() -> Seq<u8> {
    seq![119u8, 97, 116, 101, 114]
}

pub open spec fn spec_pat_sea() -> Seq<u8> {
    seq![115u8, 101, 97]
}

pub open spec fn spec_pat_swamp() -> Seq<u8> {
    seq![115u8, 119, 97, 109, 112]
}

pub open spec fn spec_pat_tar() -> Seq<u8> {
    seq![116u8, 97, 114]
}

pub open spec fn spec_pat_lava() -> Seq<u8> {
    seq![108u8, 97, 118, 97]
}

pub open spec fn spec_pat_sand() -> Seq<u8> {
    seq![115u8, 97, 110, 100]
}

pub open spec fn spec_pat_desert() -> Seq<u8> {
    seq![100u8, 101, 115, 101, 114, 116]
}

pub open spec fn spec_pat_snow() -> Seq<u8> {
    seq![115u8, 110, 111, 119]
}

pub open spec fn spec_pat_ice() -> Seq<u8> {
    seq![105u8, 99, 101]
}

pub open spec fn spec_pat_grass() -> Seq<u8> {
    seq![103u8, 114, 97, 115, 115]
}

pub open spec fn spec_pat_wall() -> Seq<u8> {
    seq![119u8, 97, 108, 108]
}

pub open spec fn spec_pat_brick() -> Seq<u8> {
    seq![98u8, 114, 105, 99, 107]
}

pub open spec fn spec_pat_tree() -> Seq<u8> {
    seq![116u8, 114, 101, 101]
}

pub open spec fn spec_pat_trunk() -> Seq<u8> {
    seq![116u8, 114, 117, 110, 107]
}

pub open spec fn spec_pat_mountain() -> Seq<u8> {
    seq![109u8, 111, 117, 110, 116, 97, 105, 110]
}

pub open spec fn spec_pat_stone() -> Seq<u8> {
    seq![115u8, 116, 111, 110, 101]
}

pub open spec fn spec_pat_rock() -> Seq<u8> {
    seq![114u8, 111, 99, 107]
}

pub open spec fn spec_pat_dirt() -> Seq<u8> {
    seq![100u8, 105, 114, 116]
}

pub open spec fn spec_pat_earth() -> Seq<u8> {
    seq![101u8, 97, 114, 116, 104]
}

pub open spec fn spec_pat_soil() -> Seq<u8> {
    seq![115u8, 111, 105, 108]
}

pub open spec fn spec_pat_gravel() -> Seq<u8> {
    seq![103u8, 114, 97, 118, 101, 108]
}

pub open spec fn spec_pat_floor() -> Seq<u8> {
    seq![102u8, 108, 111, 111, 114]
}

pub open spec fn spec_pat_pavement() -> Seq<u8> {
    seq![112u8, 97, 118, 101, 109, 101, 110, 116]
}

pub open spec fn spec_pat_cobble() -> Seq<u8> {
    seq![99u8, 111, 98, 98, 108, 101]
}

/// The colour of one object: terrain words of the lower-cased name win
/// first, then impassable and ground objects take their family colours,
/// and anything else is black.
pub open spec fn spec_name_color(lower: Seq<u8>, is_ground: bool, is_impassable: bool) -> Rgb {
    if spec_contains_seq(lower, spec_pat_water()) || spec_contains_seq(lower, spec_pat_sea()) {
        Rgb { r: 33, g: 66, b: 99 }
    } else if spec_contains_seq(lower, spec_pat_swamp()) {
        Rgb { r: 64, g: 80, b: 48 }
    } else if spec_contains_seq(lower, spec_pat_tar()) {
        Rgb { r: 32, g: 32, b: 32 }
    } else if spec_contains_seq(lower, spec_pat_lava()) {
        Rgb { r: 255, g: 140, b: 0 }
    } else if spec_contains_seq(lower, spec_pat_sand()) || spec_contains_seq(
        lower,
        spec_pat_desert(),
    ) {
        Rgb { r: 210, g: 180, b: 140 }
    } else if spec_contains_seq(lower, spec_pat_snow()) || spec_contains_seq(
        lower,
        spec_pat_ice(),
    ) {
        Rgb { r: 230, g: 240, b: 250 }
    } else if spec_contains_seq(lower, spec_pat_grass()) {
        Rgb { r: 0, g: 255, b: 0 }
    } else if is_impassable {
        if spec_contains_seq(lower, spec_pat_wall()) || spec_contains_seq(
            lower,
            spec_pat_brick(),
        ) {
            Rgb { r: 255, g: 0, b: 0 }
        } else if spec_contains_seq(lower, spec_pat_tree()) || spec_contains_seq(
            lower,
            spec_pat_trunk(),
        ) {
            Rgb { r: 0, g: 128, b: 0 }
        } else if spec_contains_seq(lower, spec_pat_mountain()) || spec_contains_seq(
            lower,
            spec_pat_stone(),
        ) || spec_contains_seq(lower, spec_pat_rock()) {
            Rgb { r: 128, g: 128, b: 128 }
        } else {
            Rgb { r: 192, g: 192, b: 192 }
        }
    } else if is_ground {
        if spec_contains_seq(lower, spec_pat_dirt()) || spec_contains_seq(
            lower,
            spec_pat_earth(),
        ) || spec_contains_seq(lower, spec_pat_soil()) {
            Rgb { r: 165, g: 42, b: 42 }
        } else if spec_contains_seq(lower, spec_pat_gravel()) {
            Rgb { r: 128, g: 128, b: 128 }
        } else if spec_contains_seq(lower, spec_pat_floor()) || spec_contains_seq(
            lower,
            spec_pat_pavement(),
        ) || spec_contains_seq(lower, spec_pat_cobble()) {
            Rgb { r: 169, g: 169, b: 169 }
        } else {
            Rgb { r: 144, g: 238, b: 144 }
        }
    } else {
        Rgb { r: 0, g: 0, b: 0 }
    }
}

/// Assigns one object its flat colour from its name and passability.
pub fn object_name_to_color(name: &Vec<u8>, is_ground: bool, is_impassable: bool) -> (c: Rgb)
    ensures
        c == spec_name_color(name@.map_values(|b: u8| spec_lower(b)), is_ground, is_impassable),
{
    let lower = to_lower(name);
    let water: Vec<u8> = vec![119u8, 97, 116, 101, 114];
    let sea: Vec<u8> = vec![115u8, 101, 97];
    let swamp: Vec<u8> = vec![115u8, 119, 97, 109, 112];
    let tar: Vec<u8> = vec![116u8, 97, 114];
    let lava: Vec<u8> = vec![108u8, 97, 118, 97];
    let sand: Vec<u8> = vec![115u8, 97, 110, 100];
    let desert: Vec<u8> = vec![100u8, 101, 115, 101, 114, 116];
    let snow: Vec<u8> = vec![115u8, 110, 111, 119];
    let ice: Vec<u8> = vec![105u8, 99, 101];
    let grass: Vec<u8> = vec![103u8, 114, 97, 115, 115];
    proof {
        assert(water@ =~= spec_pat_water());
        assert(sea@ =~= spec_pat_sea());
        assert(swamp@ =~= spec_pat_swamp());
        assert(tar@ =~= spec_pat_tar());
        assert(lava@ =~= spec_pat_lava());
        assert(sand@ =~= spec_pat_sand());
        assert(desert@ =~= spec_pat_desert());
        assert(snow@ =~= spec_pat_snow());
        assert(ice@ =~= spec_pat_ice());
        assert(grass@ =~= spec_pat_grass());
    }
    if contains_seq(&lower, &water) || contains_seq(&lower, &sea) {
        return Rgb::new(33, 66, 99);
    }
    if contains_seq(&lower, &swamp) {
        return Rgb::new(64, 80, 48);
    }
    if contains_seq(&lower, &tar) {
        return Rgb::new(32, 32, 32);
    }
    if contains_seq(&lower, &lava) {
        return Rgb::new(255, 140, 0);
    }
    if contains_seq(&lower, &sand) || contains_seq(&lower, &desert) {
        return Rgb::new(210, 180, 140);
    }
    if contains_seq(&lower, &snow) || contains_seq(&lower, &ice) {
        return Rgb::new(230, 240, 250);
    }
    if contains_seq(&lower, &grass) {
        return Rgb::new(0, 255, 0);
    }
    if is_impassable {
        let wall: Vec<u8> = vec![119u8, 97, 108, 108];
        let brick: Vec<u8> = vec![98u8, 114, 105, 99, 107];
        let tree: Vec<u8> = vec![116u8, 114, 101, 101];
        let trunk: Vec<u8> = vec![116u8, 114, 117, 110, 107];
        let mountain: Vec<u8> = vec![109u8, 111, 117, 110, 116, 97, 105, 110];
        let stone: Vec<u8> = vec![115u8, 116, 111, 110, 101];
        let rock: Vec<u8> = vec![114u8, 111, 99, 107];
        proof {
            assert(wall@ =~= spec_pat_wall());
            assert(brick@ =~= spec_pat_brick());
            assert(tree@ =~= spec_pat_tree());
            assert(trunk@ =~= spec_pat_trunk());
            assert(mountain@ =~= spec_pat_mountain());
            assert(stone@ =~= spec_pat_stone());
            assert(rock@ =~= spec_pat_rock());
        }
        if contains_seq(&lower, &wall) || contains_seq(&lower, &brick) {
            return Rgb::new(255, 0, 0);
        }
        if contains_seq(&lower, &tree) || contains_seq(&lower, &trunk) {
            return Rgb::new(0, 128, 0);
        }
        if contains_seq(&lower, &mountain) || contains_seq(&lower, &stone) || contains_seq(
            &lower,
            &rock,
        ) {
            return Rgb::new(128, 128, 128);
        }
        return Rgb::new(192, 192, 192);
    }
    if is_ground {
        let dirt: Vec<u8> = vec![100u8, 105, 114, 116];
        let earth: Vec<u8> = vec![101u8, 97, 114, 116, 104];
        let soil: Vec<u8> = vec![115u8, 111, 105, 108];
        let gravel: Vec<u8> = vec![103u8, 114, 97, 118, 101, 108];
        let floor_pat: Vec<u8> = vec![102u8, 108, 111, 111, 114];
        let pavement: Vec<u8> = vec![112u8, 97, 118, 101, 109, 101, 110, 116];
        let cobble: Vec<u8> = vec![99u8, 111, 98, 98, 108, 101];
        proof {
            assert(dirt@ =~= spec_pat_dirt());
            assert(earth@ =~= spec_pat_earth());
            assert(soil@ =~= spec_pat_soil());
            assert(gravel@ =~= spec_pat_gravel());
            assert(floor_pat@ =~= spec_pat_floor());
            assert(pavement@ =~= spec_pat_pavement());
            assert(cobble@ =~= spec_pat_cobble());
        }
        if contains_seq(&lower, &dirt) || contains_seq(&lower, &earth) || contains_seq(
            &lower,
            &soil,
        ) {
            return Rgb::new(165, 42, 42);
        }
        if contains_seq(&lower, &gravel) {
            return Rgb::new(128, 128, 128);
        }
        if contains_seq(&lower, &floor_pat) || contains_seq(&lower, &pavement) || contains_seq(
            &lower,
            &cobble,
        ) {
            return Rgb::new(169, 169, 169);
        }
        return Rgb::new(144, 238, 144);
    }
    Rgb::new(0, 0, 0)
}

/// The colour of each catalog record under the naming rule; the latest
/// record of an id decides, as everywhere in the catalog.
pub fn create_color_map(objects: &ObjectCatalog) -> (m: HashMap<u32, Rgb>)
    ensures
        forall|k: int|
            0 <= k < objects.recs().len() ==> m@.contains_key((#[trigger] objects.recs()[k]).id),
        forall|id: u32| #[trigger]
            m@.contains_key(id) ==> exists|k: int|
                0 <= k < objects.recs().len() && (#[trigger] objects.recs()[k]).id == id
                    && m@[id] == spec_name_color(
                    objects.recs()[k].name.map_values(|b: u8| spec_lower(b)),
                    objects.recs()[k].is_ground,
                    objects.recs()[k].is_impassable,
                ) && (forall|j: int|
                    k < j < objects.recs().len() ==> (#[trigger] objects.recs()[j]).id != id),
{
    let mut m: HashMap<u32, Rgb> = HashMap::new();
    let n = objects.record_count();
    let mut i: usize = 0;
    while i < n
        invariant
            n == objects.recs().len(),
            i <= n,
            forall|k: int|
                0 <= k < i ==> m@.contains_key((#[trigger] objects.recs()[k]).id),
            forall|id: u32| #[trigger]
                m@.contains_key(id) ==> exists|k: int|
                    0 <= k < i && (#[trigger] objects.recs()[k]).id == id && m@[id]
                        == spec_name_color(
                        objects.recs()[k].name.map_values(|b: u8| spec_lower(b)),
                        objects.recs()[k].is_ground,
                        objects.recs()[k].is_impassable,
                    ) && (forall|j: int| k < j < i ==> (#[trigger] objects.recs()[j]).id != id),
        decreases n - i,
    {
        let o = objects.record_at(i);
        let color = object_name_to_color(&o.name, o.is_ground, o.is_impassable);
        m.insert(o.id, color);
        i = i + 1;
    }
    m
}

} // verus!
