//! The object-type catalog: parsing of the block-structured definition
//! file into an id-keyed table of `GameObject` records.

use vstd::prelude::*;
use crate::bytes::{
    all_digits, dec_val, drop_back, drop_front, drop_front_bytes, find_byte, first_index, is_space,
    parse_u32, slice_of, spec_parse_u32, spec_split, spec_starts_with, spec_trim, split_all,
    starts_with, strip_prefix_of, trim, trim_edge_bytes, bytes_eq, contains_seq, spec_contains_seq,
};

verus! {

/// Mathematical image of a `GameObject`.
pub struct GameObjectV {
    pub id: u32,
    pub name: Seq<u8>,
    pub flags: Seq<Seq<u8>>,
    pub waypoints: u32,
    pub is_ground: bool,
    pub is_impassable: bool,
    pub disguise_target: Option<u32>,
}

/// One entry of the object-type catalog. `name` and the flag tokens are
/// byte strings, exactly as they stand in the definition file.
#[derive(Debug)]
pub struct GameObject {
    pub id: u32,
    pub name: Vec<u8>,
    pub flags: Vec<Vec<u8>>,
    pub waypoints: u32,
    pub is_ground: bool,
    pub is_impassable: bool,
    pub disguise_target: Option<u32>,
}

impl View for GameObject {
    type V = GameObjectV;

    open spec fn view(&self) -> GameObjectV {
        GameObjectV {
            id: self.id,
            name: self.name@,
            flags: self.flags@.map_values(|f: Vec<u8>| f@),
            waypoints: self.waypoints,
            is_ground: self.is_ground,
            is_impassable: self.is_impassable,
            disguise_target: self.disguise_target,
        }
    }
}

/// Membership of a flag token in a flag list.
pub open spec fn has_flag(flags: Seq<Seq<u8>>, f: Seq<u8>) -> bool {
    exists|i: int| 0 <= i < flags.len() && flags[i] == f
}

/// An object is ground when it has waypoints and is not flagged impassable.
pub open spec fn spec_is_ground(has_unpass: bool, waypoints: u32) -> bool {
    waypoints > 0 && !has_unpass
}

/// An object is impassable when it is flagged so or has no waypoints.
pub open spec fn spec_impassable(has_unpass: bool, waypoints: u32) -> bool {
    has_unpass || waypoints == 0
}

/// An "Unpass" flag forces impassability, whatever the waypoint count.
pub proof fn lemma_unpass_forces_impassable(has_unpass: bool, waypoints: u32)
    requires
        has_unpass,
    ensures
        spec_impassable(has_unpass, waypoints),
{
}

/// A well-formed record flagged "Unpass" is impassable, whatever its
/// waypoint count.
pub proof fn lemma_unpass_object_impassable(o: GameObjectV)
    requires
        obj_wf(o),
        has_flag(o.flags, spec_key_unpass()),
    ensures
        o.is_impassable,
{
}

/// The derived booleans of a record agree with its flags and waypoints.
pub open spec fn obj_wf(o: GameObjectV) -> bool {
    &&& o.is_ground == spec_is_ground(has_flag(o.flags, spec_key_unpass()), o.waypoints)
    &&& o.is_impassable == spec_impassable(has_flag(o.flags, spec_key_unpass()), o.waypoints)
}

pub open spec fn spec_key_unpass() -> Seq<u8> {
    seq![85u8, 110, 112, 97, 115, 115]
}

/// The byte string `Unpass`.
pub fn key_unpass() -> (v: Vec<u8>)
    ensures
        v@ == spec_key_unpass(),
{
    let v: Vec<u8> = vec![85u8, 110, 112, 97, 115, 115];
    proof {
        assert(v@ =~= spec_key_unpass());
    }
    v
}

pub open spec fn spec_key_typeid() -> Seq<u8> {
    seq![84u8, 121, 112, 101, 73, 68]
}

/// The byte string `TypeID`.
pub fn key_typeid() -> (v: Vec<u8>)
    ensures
        v@ == spec_key_typeid(),
{
    let v: Vec<u8> = vec![84u8, 121, 112, 101, 73, 68];
    proof {
        assert(v@ =~= spec_key_typeid());
    }
    v
}

pub open spec fn spec_key_name() -> Seq<u8> {
    seq![78u8, 97, 109, 101]
}

/// The byte string `Name`.
pub fn key_name() -> (v: Vec<u8>)
    ensures
        v@ == spec_key_name(),
{
    let v: Vec<u8> = vec![78u8, 97, 109, 101];
    proof {
        assert(v@ =~= spec_key_name());
    }
    v
}

pub open spec fn spec_key_flags() -> Seq<u8> {
    seq![70u8, 108, 97, 103, 115]
}

/// The byte string `Flags`.
pub fn key_flags() -> (v: Vec<u8>)
    ensures
        v@ == spec_key_flags(),
{
    let v: Vec<u8> = vec![70u8, 108, 97, 103, 115];
    proof {
        assert(v@ =~= spec_key_flags());
    }
    v
}

pub open spec fn spec_key_attributes() -> Seq<u8> {
    seq![65u8, 116, 116, 114, 105, 98, 117, 116, 101, 115]
}

/// The byte string `Attributes`.
pub fn key_attributes() -> (v: Vec<u8>)
    ensures
        v@ == spec_key_attributes(),
{
    let v: Vec<u8> = vec![65u8, 116, 116, 114, 105, 98, 117, 116, 101, 115];
    proof {
        assert(v@ =~= spec_key_attributes());
    }
    v
}

pub open spec fn spec_key_waypoints() -> Seq<u8> {
    seq![87u8, 97, 121, 112, 111, 105, 110, 116, 115]
}

/// The byte string `Waypoints`.
pub fn key_waypoints() -> (v: Vec<u8>)
    ensures
        v@ == spec_key_waypoints(),
{
    let v: Vec<u8> = vec![87u8, 97, 121, 112, 111, 105, 110, 116, 115];
    proof {
        assert(v@ =~= spec_key_waypoints());
    }
    v
}

pub open spec fn spec_key_disguise_target() -> Seq<u8> {
    seq![68u8, 105, 115, 103, 117, 105, 115, 101, 84, 97, 114, 103, 101, 116]
}

/// The byte string `DisguiseTarget`.
pub fn key_disguise_target() -> (v: Vec<u8>)
    ensures
        v@ == spec_key_disguise_target(),
{
    let v: Vec<u8> = vec![68u8, 105, 115, 103, 117, 105, 115, 101, 84, 97, 114, 103, 101, 116];
    proof {
        assert(v@ =~= spec_key_disguise_target());
    }
    v
}

/// Whether the flag list holds the given token.
pub fn flags_contain(flags: &Vec<Vec<u8>>, f: &Vec<u8>) -> (r: bool)
    ensures
        r == has_flag(flags@.map_values(|x: Vec<u8>| x@), f@),
{
    let ghost fv = flags@.map_values(|x: Vec<u8>| x@);
    let mut i: usize = 0;
    while i < flags.len()
        invariant
            i <= flags@.len(),
            fv == flags@.map_values(|x: Vec<u8>| x@),
            forall|j: int| 0 <= j < i ==> fv[j] != f@,
        decreases flags@.len() - i,
    {
        if bytes_eq(&flags[i], f) {
            assert(fv[i as int] == f@);
            return true;
        }
        i = i + 1;
    }
    false
}

/// Errors of the catalog loader: the whole load fails when a `TypeID`
/// value is not a decimal number.
#[derive(Debug, PartialEq, Eq, Structural, Clone, Copy)]
pub enum CatalogError {
    InvalidTypeId,
}

/// Accumulated state of one definition block, folded line by line.
pub struct BlockSt {
    pub failed: bool,
    pub id: u32,
    pub name: Seq<u8>,
    pub flags: Seq<Seq<u8>>,
    pub waypoints: u32,
    pub disguise: Option<u32>,
}

pub open spec fn block_init() -> BlockSt {
    BlockSt {
        failed: false,
        id: 0,
        name: Seq::empty(),
        flags: Seq::empty(),
        waypoints: 0,
        disguise: None,
    }
}

/// The value part of a recognized field line: the text after the key,
/// trimmed, with every leading `=` removed, and trimmed again.
pub open spec fn spec_field_value(t: Seq<u8>, key: Seq<u8>) -> Seq<u8> {
    spec_trim(drop_front(spec_trim(t.skip(key.len() as int)), 61, 61))
}

/// Index of the first piece that holds `key` as a substring, or the
/// number of pieces if none does.
pub open spec fn first_containing(parts: Seq<Seq<u8>>, key: Seq<u8>) -> int
    decreases parts.len(),
{
    if parts.len() == 0 {
        0
    } else if spec_contains_seq(parts[0], key) {
        0
    } else {
        1 + first_containing(parts.skip(1), key)
    }
}

pub proof fn lemma_first_containing(parts: Seq<Seq<u8>>, key: Seq<u8>)
    ensures
        0 <= first_containing(parts, key) <= parts.len(),
        first_containing(parts, key) < parts.len() ==> spec_contains_seq(
            parts[first_containing(parts, key)],
            key,
        ),
        forall|j: int| 0 <= j < first_containing(parts, key) ==> !spec_contains_seq(
            #[trigger] parts[j],
            key,
        ),
    decreases parts.len(),
{
    if parts.len() == 0 {
    } else if spec_contains_seq(parts[0], key) {
    } else {
        lemma_first_containing(parts.skip(1), key);
        assert forall|j: int| 0 <= j < first_containing(parts, key) implies !spec_contains_seq(
            parts[j],
            key,
        ) by {
            if j > 0 {
                assert(parts.skip(1)[j - 1] == parts[j]);
            }
        }
    }
}

pub proof fn lemma_first_containing_is(parts: Seq<Seq<u8>>, key: Seq<u8>, i: int)
    requires
        0 <= i <= parts.len(),
        i < parts.len() ==> spec_contains_seq(parts[i], key),
        forall|j: int| 0 <= j < i ==> !spec_contains_seq(#[trigger] parts[j], key),
    ensures
        first_containing(parts, key) == i,
{
    lemma_first_containing(parts, key);
    let fi = first_containing(parts, key);
    if fi < i {
        assert(!spec_contains_seq(parts[fi], key));
    }
    if i < fi {
        assert(!spec_contains_seq(parts[i], key));
    }
}

/// Value of the first `key=value` entry of a comma-separated attribute
/// list whose text holds `key`: the part after the first `=`, trimmed,
/// with braces removed, read as decimal.
pub open spec fn spec_extract_attr(attrs: Seq<u8>, key: Seq<u8>) -> Option<u32> {
    let ps = spec_split(attrs, 44);
    let i = first_containing(ps, key);
    if i == ps.len() {
        None
    } else {
        let eq = spec_split(ps[i], 61);
        if eq.len() < 2 {
            None
        } else {
            spec_parse_u32(drop_back(drop_front(spec_trim(eq[1]), 125, 125), 125, 125))
        }
    }
}

/// Finds the first comma-separated entry of `attrs` whose text holds
/// `key`, and reads its value.
pub fn extract_attr(attrs: &Vec<u8>, key: &Vec<u8>) -> (r: Option<u32>)
    ensures
        r == spec_extract_attr(attrs@, key@),
{
    let ghost psv = spec_split(attrs@, 44);
    let parts = split_all(attrs, 44);
    let mut i: usize = 0;
    while i < parts.len()
        invariant
            psv == spec_split(attrs@, 44),
            parts@.map_values(|p: Vec<u8>| p@) == psv,
            i <= parts@.len(),
            forall|j: int| 0 <= j < i ==> !spec_contains_seq(#[trigger] psv[j], key@),
        decreases parts@.len() - i,
    {
        assert(parts@[i as int]@ == psv[i as int]);
        if contains_seq(&parts[i], key) {
            proof {
                lemma_first_containing_is(psv, key@, i as int);
            }
            let ghost eqv = spec_split(psv[i as int], 61);
            let eq = split_all(&parts[i], 61);
            if eq.len() < 2 {
                return None;
            }
            assert(eq@[1]@ == eqv[1]);
            let t = trim(&eq[1]);
            let t2 = trim_edge_bytes(&t, 125, 125);
            return parse_u32(&t2);
        }
        i = i + 1;
    }
    proof {
        lemma_first_containing_is(psv, key@, psv.len() as int);
    }
    None
}

/// One line folded into the block state. Empty and `#`-comment lines are
/// skipped; `TypeID`, `Name`, `Flags` and `Attributes` lines set their
/// fields; an unreadable `TypeID` value marks the block failed.
pub open spec fn block_step(st: BlockSt, line: Seq<u8>) -> BlockSt {
    if st.failed {
        st
    } else {
        let t = spec_trim(line);
        if t.len() == 0 || t[0] == 35 {
            st
        } else if spec_starts_with(t, spec_key_typeid()) {
            let v = spec_field_value(t, spec_key_typeid());
            let v2 = spec_trim(spec_split(v, 35)[0]);
            match spec_parse_u32(v2) {
                Some(id) => BlockSt { id, ..st },
                None => BlockSt { failed: true, ..st },
            }
        } else if spec_starts_with(t, spec_key_name()) {
            let v = spec_field_value(t, spec_key_name());
            BlockSt { name: drop_back(drop_front(v, 34, 34), 34, 34), ..st }
        } else if spec_starts_with(t, spec_key_flags()) {
            let v = spec_field_value(t, spec_key_flags());
            let v2 = drop_back(drop_front(v, 123, 125), 123, 125);
            BlockSt { flags: spec_split(v2, 44).map_values(|p: Seq<u8>| spec_trim(p)), ..st }
        } else if spec_starts_with(t, spec_key_attributes()) {
            let v = spec_field_value(t, spec_key_attributes());
            let wp = match spec_extract_attr(v, spec_key_waypoints()) {
                Some(w) => w,
                None => st.waypoints,
            };
            let dt = match spec_extract_attr(v, spec_key_disguise_target()) {
                Some(d) => Some(d),
                None => st.disguise,
            };
            BlockSt { waypoints: wp, disguise: dt, ..st }
        } else {
            st
        }
    }
}

pub open spec fn block_run(st: BlockSt, lines: Seq<Seq<u8>>) -> BlockSt
    decreases lines.len(),
{
    if lines.len() == 0 {
        st
    } else {
        block_run(block_step(st, lines[0]), lines.skip(1))
    }
}

proof fn lemma_block_run_snoc(st: BlockSt, lines: Seq<Seq<u8>>, n: int)
    requires
        0 <= n < lines.len(),
    ensures
        block_run(st, lines.take(n + 1)) == block_step(block_run(st, lines.take(n)), lines[n]),
    decreases n,
{
    if n == 0 {
        let st1 = block_step(st, lines[0]);
        assert(lines.take(1)[0] == lines[0]);
        assert(lines.take(1).skip(1) =~= Seq::<Seq<u8>>::empty());
        assert(lines.take(0) =~= Seq::<Seq<u8>>::empty());
        assert(block_run(st, lines.take(0)) == st);
        assert(block_run(st1, Seq::<Seq<u8>>::empty()) == st1);
        assert(block_run(st, lines.take(1)) == block_run(
            block_step(st, lines.take(1)[0]),
            lines.take(1).skip(1),
        ));
    } else {
        let st1 = block_step(st, lines[0]);
        lemma_block_run_snoc(st1, lines.skip(1), n - 1);
        assert(lines.take(n + 1)[0] == lines[0]);
        assert(lines.take(n)[0] == lines[0]);
        assert(lines.take(n + 1).skip(1) =~= lines.skip(1).take(n));
        assert(lines.take(n).skip(1) =~= lines.skip(1).take(n - 1));
        assert(lines.skip(1)[n - 1] == lines[n]);
        assert(block_run(st, lines.take(n + 1)) == block_run(st1, lines.take(n + 1).skip(1)));
        assert(block_run(st, lines.take(n)) == block_run(st1, lines.take(n).skip(1)));
    }
}

proof fn lemma_block_run_failed(st: BlockSt, lines: Seq<Seq<u8>>)
    requires
        st.failed,
    ensures
        block_run(st, lines).failed,
    decreases lines.len(),
{
    if lines.len() > 0 {
        lemma_block_run_failed(block_step(st, lines[0]), lines.skip(1));
    }
}

/// The record with the given fields and the two derived booleans.
pub open spec fn spec_record(
    id: u32,
    name: Seq<u8>,
    flags: Seq<Seq<u8>>,
    waypoints: u32,
    disguise_target: Option<u32>,
) -> GameObjectV {
    let unp = has_flag(flags, spec_key_unpass());
    GameObjectV {
        id,
        name,
        flags,
        waypoints,
        is_ground: spec_is_ground(unp, waypoints),
        is_impassable: spec_impassable(unp, waypoints),
        disguise_target,
    }
}

/// The finished object of a block: its fields plus the derived booleans.
pub open spec fn block_object(st: BlockSt) -> GameObjectV {
    spec_record(st.id, st.name, st.flags, st.waypoints, st.disguise)
}

/// The object defined by one block of lines, or `None` when its `TypeID`
/// value cannot be read.
pub open spec fn spec_parse_block(lines: Seq<Seq<u8>>) -> Option<GameObjectV> {
    let st = block_run(block_init(), lines);
    if st.failed {
        None
    } else {
        Some(block_object(st))
    }
}

/// Builds a `GameObject` from its parsed fields; the two derived
/// booleans are computed here, nowhere else.
pub fn make_object(
    id: u32,
    name: Vec<u8>,
    flags: Vec<Vec<u8>>,
    waypoints: u32,
    disguise_target: Option<u32>,
) -> (o: GameObject)
    ensures
        o@.id == id,
        o@.name == name@,
        o@.flags == flags@.map_values(|f: Vec<u8>| f@),
        o@.waypoints == waypoints,
        o@.disguise_target == disguise_target,
        o@.is_ground == spec_is_ground(has_flag(o@.flags, spec_key_unpass()), waypoints),
        o@.is_impassable == spec_impassable(has_flag(o@.flags, spec_key_unpass()), waypoints),
        obj_wf(o@),
{
    let unp = flags_contain(&flags, &key_unpass());
    let is_ground = waypoints > 0 && !unp;
    let is_impassable = unp || waypoints == 0;
    GameObject { id, name, flags, waypoints, is_ground, is_impassable, disguise_target }
}

/// Parses the block `lines[start..end]` into an object.
pub fn parse_object_block(lines: &Vec<Vec<u8>>, start: usize, end: usize) -> (r: Result<
    GameObject,
    CatalogError,
>)
    requires
        start <= end <= lines@.len(),
    ensures
        ({
            let sub = lines@.map_values(|l: Vec<u8>| l@).subrange(start as int, end as int);
            match r {
                Ok(o) => spec_parse_block(sub) == Some(o@) && obj_wf(o@),
                Err(_) => spec_parse_block(sub) is None,
            }
        }),
{
    let ghost sub = lines@.map_values(|l: Vec<u8>| l@).subrange(start as int, end as int);
    let tid_key = key_typeid();
    let name_key = key_name();
    let flags_key = key_flags();
    let attrs_key = key_attributes();
    let wp_key = key_waypoints();
    let dt_key = key_disguise_target();

    let mut id: u32 = 0;
    let mut name: Vec<u8> = Vec::new();
    let mut flags: Vec<Vec<u8>> = Vec::new();
    let mut waypoints: u32 = 0;
    let mut disguise: Option<u32> = None;

    let mut k: usize = start;
    proof {
        assert(sub.take(0) =~= Seq::<Seq<u8>>::empty());
    }
    while k < end
        invariant
            start <= k <= end <= lines@.len(),
            sub == lines@.map_values(|l: Vec<u8>| l@).subrange(start as int, end as int),
            tid_key@ == spec_key_typeid(),
            name_key@ == spec_key_name(),
            flags_key@ == spec_key_flags(),
            attrs_key@ == spec_key_attributes(),
            wp_key@ == spec_key_waypoints(),
            dt_key@ == spec_key_disguise_target(),
            ({
                let st = block_run(block_init(), sub.take(k - start));
                &&& !st.failed
                &&& st.id == id
                &&& st.name == name@
                &&& st.flags == flags@.map_values(|f: Vec<u8>| f@)
                &&& st.waypoints == waypoints
                &&& st.disguise == disguise
            }),
        decreases end - k,
    {
        let ghost st = block_run(block_init(), sub.take(k - start));
        proof {
            lemma_block_run_snoc(block_init(), sub, k - start);
            assert(sub[k - start] == lines@.map_values(|l: Vec<u8>| l@)[k as int]);
        }
        let t = trim(&lines[k]);
        assert(t@ == spec_trim(sub[k - start]));
        if t.len() == 0 || t[0] == 35 {
            // comment or blank line
        } else if starts_with(&t, &tid_key) {
            let rest = slice_of(&t, tid_key.len(), t.len());
            proof {
                assert(rest@ =~= t@.skip(spec_key_typeid().len() as int));
            }
            let v = trim(&drop_front_bytes(&trim(&rest), 61, 61));
            assert(v@ == spec_field_value(t@, spec_key_typeid()));
            let h = find_byte(&v, 35);
            let piece = slice_of(&v, 0, h);
            proof {
                if h == v@.len() {
                    assert(spec_split(v@, 35) == seq![v@]);
                    assert(piece@ =~= v@);
                } else {
                    assert(spec_split(v@, 35)[0] == v@.take(h as int));
                    assert(piece@ =~= v@.take(h as int));
                }
            }
            let v2 = trim(&piece);
            match parse_u32(&v2) {
                Some(x) => {
                    id = x;
                },
                None => {
                    proof {
                        let st1 = block_step(st, sub[k - start]);
                        assert(st1.failed);
                        lemma_block_run_split(block_init(), sub, k - start + 1);
                        lemma_block_run_failed(
                            block_run(block_init(), sub.take(k - start + 1)),
                            sub.skip(k - start + 1),
                        );
                    }
                    return Err(CatalogError::InvalidTypeId);
                },
            }
        } else if starts_with(&t, &name_key) {
            let rest = slice_of(&t, name_key.len(), t.len());
            proof {
                assert(rest@ =~= t@.skip(spec_key_name().len() as int));
            }
            let v = trim(&drop_front_bytes(&trim(&rest), 61, 61));
            assert(v@ == spec_field_value(t@, spec_key_name()));
            name = trim_edge_bytes(&v, 34, 34);
        } else if starts_with(&t, &flags_key) {
            let rest = slice_of(&t, flags_key.len(), t.len());
            proof {
                assert(rest@ =~= t@.skip(spec_key_flags().len() as int));
            }
            let v = trim(&drop_front_bytes(&trim(&rest), 61, 61));
            assert(v@ == spec_field_value(t@, spec_key_flags()));
            let v2 = trim_edge_bytes(&v, 123, 125);
            let ghost piecesv = spec_split(v2@, 44);
            let pieces = split_all(&v2, 44);
            let mut fl: Vec<Vec<u8>> = Vec::new();
            let mut pi: usize = 0;
            while pi < pieces.len()
                invariant
                    piecesv == pieces@.map_values(|p: Vec<u8>| p@),
                    pi <= pieces@.len(),
                    fl@.len() == pi,
                    forall|j: int| 0 <= j < pi ==> (#[trigger] fl@[j])@ == spec_trim(piecesv[j]),
                decreases pieces@.len() - pi,
            {
                assert(pieces@[pi as int]@ == piecesv[pi as int]);
                fl.push(trim(&pieces[pi]));
                pi = pi + 1;
            }
            proof {
                assert(fl@.map_values(|f: Vec<u8>| f@) =~= piecesv.map_values(
                    |p: Seq<u8>| spec_trim(p),
                ));
            }
            flags = fl;
        } else if starts_with(&t, &attrs_key) {
            let rest = slice_of(&t, attrs_key.len(), t.len());
            proof {
                assert(rest@ =~= t@.skip(spec_key_attributes().len() as int));
            }
            let v = trim(&drop_front_bytes(&trim(&rest), 61, 61));
            assert(v@ == spec_field_value(t@, spec_key_attributes()));
            match extract_attr(&v, &wp_key) {
                Some(w) => {
                    waypoints = w;
                },
                None => {},
            }
            match extract_attr(&v, &dt_key) {
                Some(d) => {
                    disguise = Some(d);
                },
                None => {},
            }
        }
        k = k + 1;
    }
    proof {
        assert(sub.take(k - start) =~= sub);
    }
    Ok(make_object(id, name, flags, waypoints, disguise))
}

proof fn lemma_block_run_split(st: BlockSt, lines: Seq<Seq<u8>>, m: int)
    requires
        0 <= m <= lines.len(),
    ensures
        block_run(st, lines) == block_run(block_run(st, lines.take(m)), lines.skip(m)),
    decreases m,
{
    if m == 0 {
        assert(lines.take(0) =~= Seq::<Seq<u8>>::empty());
        assert(lines.skip(0) =~= lines);
    } else {
        let st1 = block_step(st, lines[0]);
        lemma_block_run_split(st1, lines.skip(1), m - 1);
        assert(lines.take(m)[0] == lines[0]);
        assert(lines.take(m).skip(1) =~= lines.skip(1).take(m - 1));
        assert(lines.skip(1).skip(m - 1) =~= lines.skip(m));
    }
}

/// The id-keyed table of a list of records; a later record with the same
/// id overwrites an earlier one.
pub open spec fn seq_to_map(s: Seq<GameObjectV>) -> Map<u32, GameObjectV>
    decreases s.len(),
{
    if s.len() == 0 {
        Map::empty()
    } else {
        seq_to_map(s.drop_last()).insert(s.last().id, s.last())
    }
}

proof fn lemma_seq_to_map_absent(s: Seq<GameObjectV>, id: u32)
    requires
        forall|k: int| 0 <= k < s.len() ==> (#[trigger] s[k]).id != id,
    ensures
        !seq_to_map(s).dom().contains(id),
    decreases s.len(),
{
    if s.len() > 0 {
        lemma_seq_to_map_absent(s.drop_last(), id);
    }
}

proof fn lemma_seq_to_map_last_hit(s: Seq<GameObjectV>, k: int)
    requires
        0 <= k < s.len(),
        forall|j: int| k < j < s.len() ==> (#[trigger] s[j]).id != s[k].id,
    ensures
        seq_to_map(s).dom().contains(s[k].id),
        seq_to_map(s)[s[k].id] == s[k],
    decreases s.len(),
{
    if k == s.len() - 1 {
    } else {
        lemma_seq_to_map_last_hit(s.drop_last(), k);
    }
}

/// The object catalog: a table from object id to its record. Later
/// definitions of an id replace earlier ones.
pub struct ObjectCatalog {
    records: Vec<GameObject>,
}

impl View for ObjectCatalog {
    type V = Map<u32, GameObjectV>;

    closed spec fn view(&self) -> Map<u32, GameObjectV> {
        seq_to_map(self.records@.map_values(|o: GameObject| o@))
    }
}

impl ObjectCatalog {
    /// The records in insertion order, as the catalog's iteration view.
    pub closed spec fn recs(&self) -> Seq<GameObjectV> {
        self.records@.map_values(|o: GameObject| o@)
    }

    /// Every record's derived booleans agree with its fields.
    pub closed spec fn wf(&self) -> bool {
        forall|k: int| 0 <= k < self.recs().len() ==> obj_wf(#[trigger] self.recs()[k])
    }

    pub proof fn lemma_wf_view(&self, id: u32)
        requires
            self.wf(),
            self@.dom().contains(id),
        ensures
            obj_wf(self@[id]),
    {
        lemma_view_values_from_recs(self.recs(), id);
    }

    pub fn new() -> (c: ObjectCatalog)
        ensures
            c@ == Map::<u32, GameObjectV>::empty(),
            c.wf(),
            c.recs() == Seq::<GameObjectV>::empty(),
    {
        let c = ObjectCatalog { records: Vec::new() };
        proof {
            assert(c.recs() =~= Seq::<GameObjectV>::empty());
        }
        c
    }

    /// Adds a record built from its parsed fields; an existing record
    /// with the same id is superseded.
    pub fn put(
        &mut self,
        id: u32,
        name: Vec<u8>,
        flags: Vec<Vec<u8>>,
        waypoints: u32,
        disguise_target: Option<u32>,
    )
        requires
            old(self).wf(),
        ensures
            final(self).wf(),
            final(self).recs() == old(self).recs().push(
                spec_record(
                    id,
                    name@,
                    flags@.map_values(|f: Vec<u8>| f@),
                    waypoints,
                    disguise_target,
                ),
            ),
            final(self)@ == old(self)@.insert(id, final(self).recs().last()),
    {
        let o = make_object(id, name, flags, waypoints, disguise_target);
        self.put_object(o);
    }

    fn put_object(&mut self, o: GameObject)
        requires
            old(self).wf(),
            obj_wf(o@),
        ensures
            final(self).wf(),
            final(self).recs() == old(self).recs().push(o@),
            final(self)@ == old(self)@.insert(o@.id, o@),
    {
        self.records.push(o);
        proof {
            assert(self.recs() =~= old(self).recs().push(o@));
            assert(self.recs().drop_last() =~= old(self).recs());
        }
    }

    /// Looks an id up; the latest record with that id answers.
    pub fn get(&self, id: u32) -> (r: Option<&GameObject>)
        ensures
            self@.dom().contains(id) ==> (r matches Some(o) && o@ == self@[id]),
            !self@.dom().contains(id) ==> r is None,
    {
        let mut i: usize = self.records.len();
        while i > 0
            invariant
                i <= self.records@.len(),
                forall|j: int| i <= j < self.recs().len() ==> (#[trigger] self.recs()[j]).id != id,
            decreases i,
        {
            i = i - 1;
            if self.records[i].id == id {
                proof {
                    lemma_seq_to_map_last_hit(self.recs(), i as int);
                }
                return Some(&self.records[i]);
            }
        }
        proof {
            lemma_seq_to_map_absent(self.recs(), id);
        }
        None
    }

    /// Number of records held, later duplicates of an id included.
    pub fn record_count(&self) -> (r: usize)
        ensures
            r == self.recs().len(),
    {
        self.records.len()
    }

    /// The record at a position of the insertion order.
    pub fn record_at(&self, i: usize) -> (r: &GameObject)
        requires
            i < self.recs().len(),
        ensures
            r@ == self.recs()[i as int],
    {
        &self.records[i]
    }
}

proof fn lemma_view_values_from_recs(s: Seq<GameObjectV>, id: u32)
    requires
        seq_to_map(s).dom().contains(id),
    ensures
        exists|k: int| 0 <= k < s.len() && seq_to_map(s)[id] == #[trigger] s[k],
    decreases s.len(),
{
    if s.len() > 0 {
        if id == s.last().id {
            assert(seq_to_map(s)[id] == s[s.len() - 1]);
        } else {
            lemma_view_values_from_recs(s.drop_last(), id);
            let k = choose|k: int|
                0 <= k < s.drop_last().len() && seq_to_map(s.drop_last())[id] == #[trigger] s.drop_last()[k];
            assert(seq_to_map(s)[id] == s[k]);
        }
    }
}

/// Whether a line opens a definition block.
pub open spec fn is_block_start(line: Seq<u8>) -> bool {
    spec_starts_with(spec_trim(line), spec_key_typeid())
}

/// The indices of the block-start lines among the first `n` lines.
pub open spec fn spec_starts_up_to(lines: Seq<Seq<u8>>, n: int) -> Seq<int>
    decreases n,
{
    if n <= 0 {
        Seq::empty()
    } else {
        let p = spec_starts_up_to(lines, n - 1);
        if is_block_start(lines[n - 1]) {
            p.push(n - 1)
        } else {
            p
        }
    }
}

pub open spec fn spec_block_starts(lines: Seq<Seq<u8>>) -> Seq<int> {
    spec_starts_up_to(lines, lines.len() as int)
}

/// The catalog map of the blocks from `starts[k]` on, folded onto `acc`.
pub open spec fn spec_cat_loop(
    lines: Seq<Seq<u8>>,
    starts: Seq<int>,
    k: int,
    acc: Map<u32, GameObjectV>,
) -> Option<Map<u32, GameObjectV>>
    decreases starts.len() - k,
{
    if k < 0 || k >= starts.len() {
        Some(acc)
    } else {
        let end = if k + 1 < starts.len() {
            starts[k + 1]
        } else {
            lines.len() as int
        };
        match spec_parse_block(lines.subrange(starts[k], end)) {
            None => None,
            Some(o) => spec_cat_loop(lines, starts, k + 1, acc.insert(o.id, o)),
        }
    }
}

/// The catalog defined by a whole file: its lines are cut into blocks at
/// the `TypeID` lines, and each block's object is entered in order.
/// `None` when any block's `TypeID` value cannot be read.
pub open spec fn spec_parse_objects(content: Seq<u8>) -> Option<Map<u32, GameObjectV>> {
    let lines = spec_split(content, 10);
    spec_cat_loop(lines, spec_block_starts(lines), 0, Map::empty())
}

/// Parses the object-type definition file. Every definition block is
/// read; the load fails exactly when some block's `TypeID` value is not
/// a decimal number.
pub fn parse_objects(content: &Vec<u8>) -> (r: Result<ObjectCatalog, CatalogError>)
    ensures
        match r {
            Ok(c) => spec_parse_objects(content@) == Some(c@) && c.wf(),
            Err(_) => spec_parse_objects(content@) is None,
        },
{
    let lines = split_all(content, 10);
    let ghost lv = lines@.map_values(|l: Vec<u8>| l@);
    let tid_key = key_typeid();

    let mut starts: Vec<usize> = Vec::new();
    let mut i: usize = 0;
    while i < lines.len()
        invariant
            lv == lines@.map_values(|l: Vec<u8>| l@),
            lv == spec_split(content@, 10),
            tid_key@ == spec_key_typeid(),
            i <= lines@.len(),
            starts@.map_values(|u: usize| u as int) == spec_starts_up_to(lv, i as int),
            forall|j: int| 0 <= j < starts@.len() ==> #[trigger] starts@[j] < i,
            forall|j1: int, j2: int|
                0 <= j1 < j2 < starts@.len() ==> starts@[j1] < starts@[j2],
        decreases lines@.len() - i,
    {
        assert(lines@[i as int]@ == lv[i as int]);
        let t = trim(&lines[i]);
        if starts_with(&t, &tid_key) {
            starts.push(i);
            proof {
                assert(starts@.map_values(|u: usize| u as int) =~= spec_starts_up_to(
                    lv,
                    i + 1 as int,
                ));
            }
        } else {
            proof {
                assert(starts@.map_values(|u: usize| u as int) =~= spec_starts_up_to(
                    lv,
                    i + 1 as int,
                ));
            }
        }
        i = i + 1;
    }
    let ghost sv = spec_block_starts(lv);
    proof {
        assert(sv == starts@.map_values(|u: usize| u as int));
    }

    let mut catalog = ObjectCatalog::new();
    let mut k: usize = 0;
    while k < starts.len()
        invariant
            lv == lines@.map_values(|l: Vec<u8>| l@),
            lv == spec_split(content@, 10),
            sv == starts@.map_values(|u: usize| u as int),
            sv == spec_block_starts(lv),
            k <= starts@.len(),
            forall|j: int| 0 <= j < starts@.len() ==> #[trigger] starts@[j] < lines@.len(),
            forall|j1: int, j2: int|
                0 <= j1 < j2 < starts@.len() ==> starts@[j1] < starts@[j2],
            catalog.wf(),
            spec_cat_loop(lv, sv, 0, Map::empty()) == spec_cat_loop(lv, sv, k as int, catalog@),
        decreases starts@.len() - k,
    {
        let start = starts[k];
        let end = if k + 1 < starts.len() {
            starts[k + 1]
        } else {
            lines.len()
        };
        assert(start <= end <= lines@.len());
        match parse_object_block(&lines, start, end) {
            Ok(o) => {
                assert(lv.subrange(start as int, end as int) == lines@.map_values(
                    |l: Vec<u8>| l@,
                ).subrange(start as int, end as int));
                catalog.put_object(o);
            },
            Err(e) => {
                return Err(e);
            },
        }
        k = k + 1;
    }
    Ok(catalog)
}

} // verus!
