//! The layer classifier: turns the raw object-id stack of one tile into
//! the bottom-to-top draw order of the painter's algorithm.

use vstd::prelude::*;
use crate::bytes::{contains_seq, lemma_filter_empty, lemma_filter_snoc, spec_contains_seq, spec_lower, to_lower};
use crate::objects::{GameObject, GameObjectV, ObjectCatalog, has_flag};

verus! {

pub open spec fn spec_key_take() -> Seq<u8> {
    seq![84u8, 97, 107, 101]
}

/// The byte string `Take`.
pub fn key_take() -> (v: Vec<u8>)
    ensures
        v@ == spec_key_take(),
{
    let v: Vec<u8> = vec![84u8, 97, 107, 101];
    proof {
        assert(v@ =~= spec_key_take());
    }
    v
}

pub open spec fn spec_key_bank() -> Seq<u8> {
    seq![66u8, 97, 110, 107]
}

/// The byte string `Bank`.
pub fn key_bank() -> (v: Vec<u8>)
    ensures
        v@ == spec_key_bank(),
{
    let v: Vec<u8> = vec![66u8, 97, 110, 107];
    proof {
        assert(v@ =~= spec_key_bank());
    }
    v
}

pub open spec fn spec_key_clip() -> Seq<u8> {
    seq![67u8, 108, 105, 112]
}

/// The byte string `Clip`.
pub fn key_clip() -> (v: Vec<u8>)
    ensures
        v@ == spec_key_clip(),
{
    let v: Vec<u8> = vec![67u8, 108, 105, 112];
    proof {
        assert(v@ =~= spec_key_clip());
    }
    v
}

pub open spec fn spec_key_bottom() -> Seq<u8> {
    seq![66u8, 111, 116, 116, 111, 109]
}

/// The byte string `Bottom`.
pub fn key_bottom() -> (v: Vec<u8>)
    ensures
        v@ == spec_key_bottom(),
{
    let v: Vec<u8> = vec![66u8, 111, 116, 116, 111, 109];
    proof {
        assert(v@ =~= spec_key_bottom());
    }
    v
}

pub open spec fn spec_key_top() -> Seq<u8> {
    seq![84u8, 111, 112]
}

/// The byte string `Top`.
pub fn key_top() -> (v: Vec<u8>)
    ensures
        v@ == spec_key_top(),
{
    let v: Vec<u8> = vec![84u8, 111, 112];
    proof {
        assert(v@ =~= spec_key_top());
    }
    v
}

pub open spec fn spec_key_text() -> Seq<u8> {
    seq![84u8, 101, 120, 116]
}

/// The byte string `Text`.
pub fn key_text() -> (v: Vec<u8>)
    ensures
        v@ == spec_key_text(),
{
    let v: Vec<u8> = vec![84u8, 101, 120, 116];
    proof {
        assert(v@ =~= spec_key_text());
    }
    v
}

pub open spec fn spec_key_chest() -> Seq<u8> {
    seq![67u8, 104, 101, 115, 116]
}

/// The byte string `Chest`.
pub fn key_chest() -> (v: Vec<u8>)
    ensures
        v@ == spec_key_chest(),
{
    let v: Vec<u8> = vec![67u8, 104, 101, 115, 116];
    proof {
        assert(v@ =~= spec_key_chest());
    }
    v
}

pub open spec fn spec_key_container() -> Seq<u8> {
    seq![67u8, 111, 110, 116, 97, 105, 110, 101, 114]
}

/// The byte string `Container`.
pub fn key_container() -> (v: Vec<u8>)
    ensures
        v@ == spec_key_container(),
{
    let v: Vec<u8> = vec![67u8, 111, 110, 116, 97, 105, 110, 101, 114];
    proof {
        assert(v@ =~= spec_key_container());
    }
    v
}

pub open spec fn spec_key_unmove() -> Seq<u8> {
    seq![85u8, 110, 109, 111, 118, 101]
}

/// The byte string `Unmove`.
pub fn key_unmove() -> (v: Vec<u8>)
    ensures
        v@ == spec_key_unmove(),
{
    let v: Vec<u8> = vec![85u8, 110, 109, 111, 118, 101];
    proof {
        assert(v@ =~= spec_key_unmove());
    }
    v
}

pub open spec fn spec_key_avoid() -> Seq<u8> {
    seq![65u8, 118, 111, 105, 100]
}

/// The byte string `Avoid`.
pub fn key_avoid() -> (v: Vec<u8>)
    ensures
        v@ == spec_key_avoid(),
{
    let v: Vec<u8> = vec![65u8, 118, 111, 105, 100];
    proof {
        assert(v@ =~= spec_key_avoid());
    }
    v
}

pub open spec fn spec_pat_flower() -> Seq<u8> {
    seq![102u8, 108, 111, 119, 101, 114]
}

/// The byte string `flower`.
pub fn pat_flower() -> (v: Vec<u8>)
    ensures
        v@ == spec_pat_flower(),
{
    let v: Vec<u8> = vec![102u8, 108, 111, 119, 101, 114];
    proof {
        assert(v@ =~= spec_pat_flower());
    }
    v
}

pub open spec fn spec_pat_blossom() -> Seq<u8> {
    seq![98u8, 108, 111, 115, 115, 111, 109]
}

/// The byte string `blossom`.
pub fn pat_blossom() -> (v: Vec<u8>)
    ensures
        v@ == spec_pat_blossom(),
{
    let v: Vec<u8> = vec![98u8, 108, 111, 115, 115, 111, 109];
    proof {
        assert(v@ =~= spec_pat_blossom());
    }
    v
}

/// The chest and quest-container ids that stay visible even when their
/// objects are takeable.
pub open spec fn spec_chest_id(id: u32) -> bool {
    id == 2543 || id == 2546 || id == 2550 || id == 2551 || id == 2552 || id == 2555 || id == 2560
        || id == 4445 || id == 4830
}

pub fn is_chest_id(id: u32) -> (r: bool)
    ensures
        r == spec_chest_id(id),
{
    id == 2543 || id == 2546 || id == 2550 || id == 2551 || id == 2552 || id == 2555 || id == 2560
        || id == 4445 || id == 4830
}

/// A planted flower or blossom: its lower-cased name holds `flower` or
/// `blossom`, and its flag set is exactly `{Unmove}` or `{Unmove, Avoid}`.
pub open spec fn spec_ground_flower(o: GameObjectV) -> bool {
    let lower = o.name.map_values(|b: u8| spec_lower(b));
    &&& (spec_contains_seq(lower, spec_pat_flower()) || spec_contains_seq(
        lower,
        spec_pat_blossom(),
    ))
    &&& (o.flags.to_set() == set![spec_key_unmove()] || o.flags.to_set() == set![
        spec_key_unmove(),
        spec_key_avoid(),
    ])
}

/// Whether the lower-cased name holds the pattern.
fn name_holds(o: &GameObject, pat: &Vec<u8>) -> (r: bool)
    ensures
        r == spec_contains_seq(o@.name.map_values(|b: u8| spec_lower(b)), pat@),
{
    let lower = to_lower(&o.name);
    contains_seq(&lower, pat)
}

pub fn is_ground_flower(o: &GameObject) -> (r: bool)
    ensures
        r == spec_ground_flower(o@),
{
    let flower = pat_flower();
    let blossom = pat_blossom();
    if !name_holds(o, &flower) && !name_holds(o, &blossom) {
        return false;
    }
    let unmove = key_unmove();
    let avoid = key_avoid();
    let ghost fv = o@.flags;
    let mut only_unmove: bool = true;
    let mut only_unmove_avoid: bool = true;
    let mut saw_unmove: bool = false;
    let mut saw_avoid: bool = false;
    let mut i: usize = 0;
    while i < o.flags.len()
        invariant
            fv == o@.flags,
            fv == o.flags@.map_values(|f: Vec<u8>| f@),
            unmove@ == spec_key_unmove(),
            avoid@ == spec_key_avoid(),
            i <= o.flags@.len(),
            only_unmove == (forall|j: int| 0 <= j < i ==> #[trigger] fv[j] == spec_key_unmove()),
            only_unmove_avoid == (forall|j: int|
                0 <= j < i ==> (#[trigger] fv[j] == spec_key_unmove() || fv[j]
                    == spec_key_avoid())),
            saw_unmove == (exists|j: int| 0 <= j < i && #[trigger] fv[j] == spec_key_unmove()),
            saw_avoid == (exists|j: int| 0 <= j < i && #[trigger] fv[j] == spec_key_avoid()),
        decreases o.flags@.len() - i,
    {
        assert(o.flags@[i as int]@ == fv[i as int]);
        let is_u = crate::bytes::bytes_eq(&o.flags[i], &unmove);
        let is_a = crate::bytes::bytes_eq(&o.flags[i], &avoid);
        if !is_u {
            only_unmove = false;
        }
        if !is_u && !is_a {
            only_unmove_avoid = false;
        }
        if is_u {
            saw_unmove = true;
        }
        if is_a {
            saw_avoid = true;
        }
        i = i + 1;
    }
    let r = (only_unmove && saw_unmove) || (only_unmove_avoid && saw_unmove && saw_avoid);
    proof {
        if only_unmove && saw_unmove {
            assert(fv.to_set() =~= set![spec_key_unmove()]) by {
                assert(fv.contains(spec_key_unmove()));
                assert forall|e: Seq<u8>| fv.to_set().contains(e) implies e == spec_key_unmove()
                by {
                    let j = choose|j: int| 0 <= j < fv.len() && fv[j] == e;
                }
            }
        } else if only_unmove_avoid && saw_unmove && saw_avoid {
            assert(fv.to_set() =~= set![spec_key_unmove(), spec_key_avoid()]) by {
                assert(fv.contains(spec_key_unmove()));
                assert(fv.contains(spec_key_avoid()));
            }
        } else {
            if fv.to_set() == set![spec_key_unmove()] {
                assert(fv.to_set().contains(spec_key_unmove()));
                assert(fv.contains(spec_key_unmove()));
                assert(saw_unmove);
                assert forall|j: int| 0 <= j < fv.len() implies #[trigger] fv[j]
                    == spec_key_unmove() by {
                    assert(fv.contains(fv[j]));
                    assert(fv.to_set().contains(fv[j]));
                }
                assert(only_unmove);
            }
            if fv.to_set() == set![spec_key_unmove(), spec_key_avoid()] {
                assert(fv.to_set().contains(spec_key_unmove()));
                assert(fv.to_set().contains(spec_key_avoid()));
                assert(fv.contains(spec_key_unmove()));
                assert(fv.contains(spec_key_avoid()));
                assert forall|j: int| 0 <= j < fv.len() implies (#[trigger] fv[j]
                    == spec_key_unmove() || fv[j] == spec_key_avoid()) by {
                    assert(fv.contains(fv[j]));
                    assert(fv.to_set().contains(fv[j]));
                }
            }
        }
    }
    r
}

/// The five paint layers, in their bottom-to-top order.
pub enum Layer {
    Ground,
    Clip,
    Bottom,
    Normal,
    Top,
}

/// The layer of a catalog record: the first matching rule wins, in the
/// order Ground, Clip, Bottom, Top; everything else is Normal.
pub open spec fn spec_layer_of(o: GameObjectV) -> Layer {
    if o.is_ground || has_flag(o.flags, spec_key_bank()) {
        Layer::Ground
    } else if has_flag(o.flags, spec_key_clip()) || spec_ground_flower(o) {
        Layer::Clip
    } else if has_flag(o.flags, spec_key_bottom()) || has_flag(o.flags, spec_key_text()) {
        Layer::Bottom
    } else if has_flag(o.flags, spec_key_top()) {
        Layer::Top
    } else {
        Layer::Normal
    }
}

/// An id is kept unless its object is takeable and neither a known chest
/// id nor flagged Chest or Container.
pub open spec fn spec_kept(id: u32, o: GameObjectV) -> bool {
    !(has_flag(o.flags, spec_key_take()) && !spec_chest_id(id) && !(has_flag(
        o.flags,
        spec_key_chest(),
    ) || has_flag(o.flags, spec_key_container())))
}

/// An id of the input stack that lands in layer `l`: it is in the
/// catalog, kept, and classified there.
pub open spec fn keeps_in_layer(cat: Map<u32, GameObjectV>, id: u32, l: Layer) -> bool {
    cat.dom().contains(id) && spec_kept(id, cat[id]) && spec_layer_of(cat[id]) == l
}

/// The draw order of a stack: the kept ids, grouped into the five layers
/// in bottom-to-top order, the relative order within each layer kept.
pub open spec fn spec_select_layers(ids: Seq<u32>, cat: Map<u32, GameObjectV>) -> Seq<u32> {
    ids.filter(|id: u32| keeps_in_layer(cat, id, Layer::Ground)) + ids.filter(
        |id: u32| keeps_in_layer(cat, id, Layer::Clip),
    ) + ids.filter(|id: u32| keeps_in_layer(cat, id, Layer::Bottom)) + ids.filter(
        |id: u32| keeps_in_layer(cat, id, Layer::Normal),
    ) + ids.filter(|id: u32| keeps_in_layer(cat, id, Layer::Top))
}

/// An id the classifier keeps: known to the catalog and not dropped by
/// the take rule.
pub open spec fn spec_keeps(cat: Map<u32, GameObjectV>, id: u32) -> bool {
    cat.dom().contains(id) && spec_kept(id, cat[id])
}

proof fn lemma_layer_filters_multiset(ids: Seq<u32>, cat: Map<u32, GameObjectV>)
    ensures
        ids.filter(|id: u32| keeps_in_layer(cat, id, Layer::Ground)).to_multiset().add(
            ids.filter(|id: u32| keeps_in_layer(cat, id, Layer::Clip)).to_multiset(),
        ).add(ids.filter(|id: u32| keeps_in_layer(cat, id, Layer::Bottom)).to_multiset()).add(
            ids.filter(|id: u32| keeps_in_layer(cat, id, Layer::Normal)).to_multiset(),
        ).add(ids.filter(|id: u32| keeps_in_layer(cat, id, Layer::Top)).to_multiset()) == ids.filter(
            |id: u32| spec_keeps(cat, id),
        ).to_multiset(),
    decreases ids.len(),
{
    broadcast use vstd::seq_lib::group_to_multiset_ensures;

    let pg = |id: u32| keeps_in_layer(cat, id, Layer::Ground);
    let pc = |id: u32| keeps_in_layer(cat, id, Layer::Clip);
    let pb = |id: u32| keeps_in_layer(cat, id, Layer::Bottom);
    let pn = |id: u32| keeps_in_layer(cat, id, Layer::Normal);
    let pt = |id: u32| keeps_in_layer(cat, id, Layer::Top);
    let pk = |id: u32| spec_keeps(cat, id);
    if ids.len() == 0 {
        lemma_filter_empty(pg);
        lemma_filter_empty(pc);
        lemma_filter_empty(pb);
        lemma_filter_empty(pn);
        lemma_filter_empty(pt);
        lemma_filter_empty(pk);
        assert(Seq::<u32>::empty().to_multiset().add(Seq::<u32>::empty().to_multiset()).add(
            Seq::<u32>::empty().to_multiset(),
        ).add(Seq::<u32>::empty().to_multiset()).add(Seq::<u32>::empty().to_multiset())
            =~= Seq::<u32>::empty().to_multiset());
    } else {
        let dl = ids.drop_last();
        let x = ids.last();
        lemma_layer_filters_multiset(dl, cat);
        assert(ids =~= dl + seq![x]);
        lemma_filter_snoc(dl, x, pg);
        lemma_filter_snoc(dl, x, pc);
        lemma_filter_snoc(dl, x, pb);
        lemma_filter_snoc(dl, x, pn);
        lemma_filter_snoc(dl, x, pt);
        lemma_filter_snoc(dl, x, pk);
        if pk(x) {
            // exactly one layer claims a kept id
            assert(pg(x) || pc(x) || pb(x) || pn(x) || pt(x));
            assert(ids.filter(pg).to_multiset().add(ids.filter(pc).to_multiset()).add(
                ids.filter(pb).to_multiset(),
            ).add(ids.filter(pn).to_multiset()).add(ids.filter(pt).to_multiset()) =~= ids.filter(
                pk,
            ).to_multiset());
        } else {
            assert(!pg(x) && !pc(x) && !pb(x) && !pn(x) && !pt(x));
            assert(ids.filter(pg).to_multiset().add(ids.filter(pc).to_multiset()).add(
                ids.filter(pb).to_multiset(),
            ).add(ids.filter(pn).to_multiset()).add(ids.filter(pt).to_multiset()) =~= ids.filter(
                pk,
            ).to_multiset());
        }
    }
}

/// The draw order holds exactly the kept occurrences of the input: an
/// occurrence of an id is dropped precisely when the catalog does not
/// know it or the take rule drops it; nothing else is ever dropped, and
/// nothing is added.
pub proof fn lemma_select_layers_permutes_kept(ids: Seq<u32>, cat: Map<u32, GameObjectV>)
    ensures
        spec_select_layers(ids, cat).to_multiset() == ids.filter(
            |id: u32| spec_keeps(cat, id),
        ).to_multiset(),
{
    let fg = ids.filter(|id: u32| keeps_in_layer(cat, id, Layer::Ground));
    let fc = ids.filter(|id: u32| keeps_in_layer(cat, id, Layer::Clip));
    let fb = ids.filter(|id: u32| keeps_in_layer(cat, id, Layer::Bottom));
    let fn_ = ids.filter(|id: u32| keeps_in_layer(cat, id, Layer::Normal));
    let ft = ids.filter(|id: u32| keeps_in_layer(cat, id, Layer::Top));
    vstd::seq_lib::lemma_multiset_commutative(fg + fc + fb + fn_, ft);
    vstd::seq_lib::lemma_multiset_commutative(fg + fc + fb, fn_);
    vstd::seq_lib::lemma_multiset_commutative(fg + fc, fb);
    vstd::seq_lib::lemma_multiset_commutative(fg, fc);
    lemma_layer_filters_multiset(ids, cat);
}

/// Classifies a record into its layer.
pub fn layer_of(o: &GameObject) -> (r: Layer)
    ensures
        r == spec_layer_of(o@),
{
    if o.is_ground || crate::objects::flags_contain(&o.flags, &key_bank()) {
        Layer::Ground
    } else if crate::objects::flags_contain(&o.flags, &key_clip()) || is_ground_flower(o) {
        Layer::Clip
    } else if crate::objects::flags_contain(&o.flags, &key_bottom()) || crate::objects::flags_contain(
        &o.flags,
        &key_text(),
    ) {
        Layer::Bottom
    } else if crate::objects::flags_contain(&o.flags, &key_top()) {
        Layer::Top
    } else {
        Layer::Normal
    }
}

/// Whether the id survives the take rule.
pub fn is_kept(id: u32, o: &GameObject) -> (r: bool)
    ensures
        r == spec_kept(id, o@),
{
    let takeable = crate::objects::flags_contain(&o.flags, &key_take());
    if !takeable {
        return true;
    }
    let chest = is_chest_id(id);
    let container = crate::objects::flags_contain(&o.flags, &key_chest())
        || crate::objects::flags_contain(&o.flags, &key_container());
    chest || container
}

/// The draw order of one tile's object-id stack: ids unknown to the
/// catalog are dropped, takeable loose items are dropped, and the rest
/// are laid out Ground, Clip, Bottom, Normal, Top, keeping the source
/// order inside each layer.
pub fn select_sprite_layers(obj_ids: &Vec<u32>, objects: &ObjectCatalog) -> (r: Vec<u32>)
    ensures
        r@ == spec_select_layers(obj_ids@, objects@),
{
    let ghost cat = objects@;
    let ghost idsv = obj_ids@;
    let mut ground: Vec<u32> = Vec::new();
    let mut clip: Vec<u32> = Vec::new();
    let mut bottom: Vec<u32> = Vec::new();
    let mut normal: Vec<u32> = Vec::new();
    let mut top: Vec<u32> = Vec::new();
    let mut i: usize = 0;
    proof {
        assert(idsv.take(0) =~= Seq::<u32>::empty());
        lemma_filter_empty(|id: u32| keeps_in_layer(cat, id, Layer::Ground));
        lemma_filter_empty(|id: u32| keeps_in_layer(cat, id, Layer::Clip));
        lemma_filter_empty(|id: u32| keeps_in_layer(cat, id, Layer::Bottom));
        lemma_filter_empty(|id: u32| keeps_in_layer(cat, id, Layer::Normal));
        lemma_filter_empty(|id: u32| keeps_in_layer(cat, id, Layer::Top));
    }
    while i < obj_ids.len()
        invariant
            cat == objects@,
            idsv == obj_ids@,
            i <= idsv.len(),
            ground@ == idsv.take(i as int).filter(|id: u32| keeps_in_layer(cat, id, Layer::Ground)),
            clip@ == idsv.take(i as int).filter(|id: u32| keeps_in_layer(cat, id, Layer::Clip)),
            bottom@ == idsv.take(i as int).filter(|id: u32| keeps_in_layer(cat, id, Layer::Bottom)),
            normal@ == idsv.take(i as int).filter(|id: u32| keeps_in_layer(cat, id, Layer::Normal)),
            top@ == idsv.take(i as int).filter(|id: u32| keeps_in_layer(cat, id, Layer::Top)),
        decreases idsv.len() - i,
    {
        let id = obj_ids[i];
        proof {
            assert(idsv.take(i + 1) =~= idsv.take(i as int) + seq![id]);
            lemma_filter_snoc(idsv.take(i as int), id, |x: u32| keeps_in_layer(cat, x, Layer::Ground));
            lemma_filter_snoc(idsv.take(i as int), id, |x: u32| keeps_in_layer(cat, x, Layer::Clip));
            lemma_filter_snoc(idsv.take(i as int), id, |x: u32| keeps_in_layer(cat, x, Layer::Bottom));
            lemma_filter_snoc(idsv.take(i as int), id, |x: u32| keeps_in_layer(cat, x, Layer::Normal));
            lemma_filter_snoc(idsv.take(i as int), id, |x: u32| keeps_in_layer(cat, x, Layer::Top));
        }
        match objects.get(id) {
            None => {},
            Some(o) => {
                if is_kept(id, o) {
                    match layer_of(o) {
                        Layer::Ground => ground.push(id),
                        Layer::Clip => clip.push(id),
                        Layer::Bottom => bottom.push(id),
                        Layer::Normal => normal.push(id),
                        Layer::Top => top.push(id),
                    }
                }
            },
        }
        i = i + 1;
    }
    proof {
        assert(idsv.take(i as int) =~= idsv);
    }
    let mut out: Vec<u32> = Vec::new();
    out.append(&mut ground);
    out.append(&mut clip);
    out.append(&mut bottom);
    out.append(&mut normal);
    out.append(&mut top);
    out
}

} // verus!
