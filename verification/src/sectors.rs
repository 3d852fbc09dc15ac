//! The sector map loader: turns the text of one floor's sector files
//! into a normalized, globally aligned list of per-tile object stacks.

use vstd::prelude::*;
use vstd::multiset::Multiset;
use crate::bytes::{
    contains_seq, ends_with, find_byte, first_index, lemma_filter_snoc, parse_u32, parse_u8,
    slice_of, spec_contains_seq, spec_ends_with, spec_parse_u32, spec_parse_u8, spec_split,
    spec_trim, split_all, trim, is_space, lemma_filter_empty,
};

verus! {

/// Mathematical image of a `TileStack`.
pub struct TileStackV {
    pub x: u32,
    pub y: u32,
    pub object_ids: Seq<u32>,
}

/// One world tile position and the object ids on it, in source order.
#[derive(Debug, Clone)]
pub struct TileStack {
    pub x: u32,
    pub y: u32,
    pub object_ids: Vec<u32>,
}

impl View for TileStack {
    type V = TileStackV;

    open spec fn view(&self) -> TileStackV {
        TileStackV { x: self.x, y: self.y, object_ids: self.object_ids@ }
    }
}

/// One floor's stacks and the global sector bounding box they were
/// aligned to.
#[derive(Debug)]
pub struct SpriteMapData {
    pub floor: u8,
    pub tiles: Vec<TileStack>,
    pub min_sector_x: u32,
    pub max_sector_x: u32,
    pub min_sector_y: u32,
    pub max_sector_y: u32,
    pub version: u32,
}

impl SpriteMapData {
    /// The invariant of a loaded floor: its stacks stand in
    /// back-to-front paint order, ascending by `(y, x)`.
    pub open spec fn wf(&self) -> bool {
        sorted_yx(self.tiles@.map_values(|t: TileStack| t@))
    }
}

/// The name and raw content of one sector file.
#[derive(Debug)]
pub struct SectorFile {
    pub name: Vec<u8>,
    pub content: Vec<u8>,
}

pub open spec fn spec_suffix_sec() -> Seq<u8> {
    seq![46u8, 115, 101, 99]
}

/// The byte string `.sec`.
pub fn suffix_sec() -> (v: Vec<u8>)
    ensures
        v@ == spec_suffix_sec(),
{
    let v: Vec<u8> = vec![46u8, 115, 101, 99];
    proof {
        assert(v@ =~= spec_suffix_sec());
    }
    v
}

pub open spec fn spec_key_content() -> Seq<u8> {
    seq![67u8, 111, 110, 116, 101, 110, 116, 61]
}

/// The byte string `Content=`.
pub fn key_content() -> (v: Vec<u8>)
    ensures
        v@ == spec_key_content(),
{
    let v: Vec<u8> = vec![67u8, 111, 110, 116, 101, 110, 116, 61];
    proof {
        assert(v@ =~= spec_key_content());
    }
    v
}

/// The sector coordinates named by a file: `<x>-<y>-<z>.sec`.
pub open spec fn spec_parse_sector_coords(name: Seq<u8>) -> Option<(u32, u32, u8)> {
    if !spec_ends_with(name, spec_suffix_sec()) {
        None
    } else {
        let stem = name.take(name.len() - 4);
        let parts = spec_split(stem, 45);
        if parts.len() != 3 {
            None
        } else {
            match spec_parse_u32(parts[0]) {
                None => None,
                Some(x) => match spec_parse_u32(parts[1]) {
                    None => None,
                    Some(y) => match spec_parse_u8(parts[2]) {
                        None => None,
                        Some(z) => Some((x, y, z)),
                    },
                },
            }
        }
    }
}

/// Reads the sector coordinates out of a file name.
pub fn parse_sector_coords(name: &Vec<u8>) -> (r: Option<(u32, u32, u8)>)
    ensures
        r == spec_parse_sector_coords(name@),
{
    let sec = suffix_sec();
    if !ends_with(name, &sec) {
        return None;
    }
    let stem = slice_of(name, 0, name.len() - 4);
    proof {
        assert(stem@ =~= name@.take(name@.len() - 4));
    }
    let parts = split_all(&stem, 45);
    let ghost pv = spec_split(stem@, 45);
    if parts.len() != 3 {
        return None;
    }
    assert(parts@[0]@ == pv[0]);
    assert(parts@[1]@ == pv[1]);
    assert(parts@[2]@ == pv[2]);
    let x = match parse_u32(&parts[0]) {
        Some(v) => v,
        None => {
            return None;
        },
    };
    let y = match parse_u32(&parts[1]) {
        Some(v) => v,
        None => {
            return None;
        },
    };
    let z = match parse_u8(&parts[2]) {
        Some(v) => v,
        None => {
            return None;
        },
    };
    Some((x, y, z))
}

/// The two-or-more digit decimal form of a floor number, as it appears
/// in sector file names.
pub open spec fn spec_floor_digits(f: u8) -> Seq<u8> {
    if f < 10 {
        seq![48u8, (48 + f) as u8]
    } else if f < 100 {
        seq![(48 + f / 10) as u8, (48 + f % 10) as u8]
    } else {
        seq![(48 + f / 100) as u8, (48 + (f / 10) % 10) as u8, (48 + f % 10) as u8]
    }
}

/// The file-name suffix of one floor: `-<floor, zero padded>.sec`.
pub open spec fn spec_floor_suffix(f: u8) -> Seq<u8> {
    seq![45u8] + spec_floor_digits(f) + spec_suffix_sec()
}

/// Whether a file name belongs to the floor.
pub open spec fn spec_matches_pattern(name: Seq<u8>, floor: u8) -> bool {
    spec_ends_with(name, spec_floor_suffix(floor))
}

pub fn matches_pattern(name: &Vec<u8>, floor: u8) -> (r: bool)
    ensures
        r == spec_matches_pattern(name@, floor),
{
    let mut suffix: Vec<u8> = Vec::new();
    suffix.push(45);
    if floor < 10 {
        suffix.push(48);
        suffix.push(48 + floor);
    } else if floor < 100 {
        suffix.push(48 + floor / 10);
        suffix.push(48 + floor % 10);
    } else {
        suffix.push(48 + floor / 100);
        suffix.push(48 + (floor / 10) % 10);
        suffix.push(48 + floor % 10);
    }
    suffix.push(46);
    suffix.push(115);
    suffix.push(101);
    suffix.push(99);
    proof {
        assert(suffix@ =~= spec_floor_suffix(floor));
    }
    ends_with(name, &suffix)
}

/// First maximal run of non-whitespace bytes, as `split_whitespace`
/// hands it out.
pub open spec fn spec_first_space(s: Seq<u8>) -> int
    decreases s.len(),
{
    if s.len() == 0 {
        0
    } else if is_space(s[0]) {
        0
    } else {
        1 + spec_first_space(s.skip(1))
    }
}

pub proof fn lemma_first_space_is(s: Seq<u8>, i: int)
    requires
        0 <= i <= s.len(),
        i < s.len() ==> is_space(s[i]),
        forall|j: int| 0 <= j < i ==> !is_space(#[trigger] s[j]),
    ensures
        spec_first_space(s) == i,
    decreases i,
{
    if s.len() == 0 {
    } else if is_space(s[0]) {
        assert(i == 0);
    } else {
        lemma_first_space_is(s.skip(1), i - 1);
    }
}

/// The first whitespace-separated token of `s`, if any.
pub open spec fn spec_first_token(s: Seq<u8>) -> Option<Seq<u8>> {
    let f = crate::bytes::trim_front(s);
    if f.len() == 0 {
        None
    } else {
        Some(f.take(spec_first_space(f)))
    }
}

/// The object id of one comma-separated entry: its first
/// whitespace-separated token, read as decimal; entries without one are
/// skipped.
pub open spec fn spec_id_of_piece(p: Seq<u8>) -> Option<u32> {
    match spec_first_token(p) {
        None => None,
        Some(tok) => spec_parse_u32(tok),
    }
}

/// The ids of a brace-enclosed content list, in order; entries whose
/// leading token is not a decimal number are skipped.
pub open spec fn spec_content_ids(s: Seq<u8>) -> Seq<u32> {
    let ps = spec_split(s, 44);
    ps.filter(|p: Seq<u8>| spec_id_of_piece(p) is Some).map_values(
        |p: Seq<u8>| spec_id_of_piece(p)->Some_0,
    )
}

/// Reads the first whitespace-separated token of the piece as a
/// decimal id.
pub fn id_of_piece(p: &Vec<u8>) -> (r: Option<u32>)
    ensures
        r == spec_id_of_piece(p@),
{
    let mut a: usize = 0;
    while a < p.len() && crate::bytes::is_space_exec(p[a])
        invariant
            a <= p@.len(),
            forall|j: int| 0 <= j < a ==> is_space(#[trigger] p@[j]),
        decreases p@.len() - a,
    {
        a = a + 1;
    }
    proof {
        crate::bytes::lemma_trim_front_skip(p@, a as int);
    }
    if a == p.len() {
        return None;
    }
    let mut b: usize = a;
    while b < p.len() && !crate::bytes::is_space_exec(p[b])
        invariant
            a <= b <= p@.len(),
            a < p@.len(),
            forall|j: int| a <= j < b ==> !is_space(#[trigger] p@[j]),
        decreases p@.len() - b,
    {
        b = b + 1;
    }
    let tok = slice_of(p, a, b);
    proof {
        let f = p@.skip(a as int);
        if b < p@.len() {
            lemma_first_space_is(f, b - a);
        } else {
            lemma_first_space_is(f, b - a);
        }
        assert(f.take(b - a) =~= p@.subrange(a as int, b as int));
    }
    parse_u32(&tok)
}

/// Collects the ids of a brace-enclosed content list.
pub fn content_ids(s: &Vec<u8>) -> (r: Vec<u32>)
    ensures
        r@ == spec_content_ids(s@),
{
    let ghost psv = spec_split(s@, 44);
    let pieces = split_all(s, 44);
    let mut out: Vec<u32> = Vec::new();
    let mut i: usize = 0;
    proof {
        assert(psv.take(0) =~= Seq::<Seq<u8>>::empty());
        lemma_filter_empty(|p: Seq<u8>| spec_id_of_piece(p) is Some);
        assert(Seq::<Seq<u8>>::empty().filter(|p: Seq<u8>| spec_id_of_piece(p) is Some).map_values(
            |p: Seq<u8>| spec_id_of_piece(p)->Some_0,
        ) =~= Seq::<u32>::empty());
    }
    while i < pieces.len()
        invariant
            psv == pieces@.map_values(|p: Vec<u8>| p@),
            i <= pieces@.len(),
            out@ == psv.take(i as int).filter(|p: Seq<u8>| spec_id_of_piece(p) is Some).map_values(
                |p: Seq<u8>| spec_id_of_piece(p)->Some_0,
            ),
        decreases pieces@.len() - i,
    {
        assert(pieces@[i as int]@ == psv[i as int]);
        proof {
            assert(psv.take(i + 1 as int) =~= psv.take(i as int) + seq![psv[i as int]]);
            lemma_filter_snoc(
                psv.take(i as int),
                psv[i as int],
                |p: Seq<u8>| spec_id_of_piece(p) is Some,
            );
        }
        match id_of_piece(&pieces[i]) {
            Some(v) => {
                out.push(v);
                proof {
                    assert(out@ =~= psv.take(i + 1 as int).filter(
                        |p: Seq<u8>| spec_id_of_piece(p) is Some,
                    ).map_values(|p: Seq<u8>| spec_id_of_piece(p)->Some_0));
                }
            },
            None => {
                proof {
                    assert(out@ =~= psv.take(i + 1 as int).filter(
                        |p: Seq<u8>| spec_id_of_piece(p) is Some,
                    ).map_values(|p: Seq<u8>| spec_id_of_piece(p)->Some_0));
                }
            },
        }
        i = i + 1;
    }
    proof {
        assert(psv.take(i as int) =~= psv);
    }
    out
}

/// One content line, already trimmed: `<x>-<y>:` then a brace-enclosed
/// id list. A line whose closing brace precedes its opening brace has no
/// id list and fails the grammar.
pub open spec fn spec_parse_content_line(line: Seq<u8>) -> Option<(u32, u32, Seq<u32>)> {
    let ci = first_index(line, 58);
    if ci == line.len() {
        None
    } else {
        let coords = spec_split(line.take(ci), 45);
        if coords.len() != 2 {
            None
        } else {
            match spec_parse_u32(coords[0]) {
                None => None,
                Some(lx) => match spec_parse_u32(coords[1]) {
                    None => None,
                    Some(ly) => {
                        let content = line.skip(ci + 1);
                        let bs = first_index(content, 123);
                        let es = first_index(content, 125);
                        if bs == content.len() || es == content.len() || es < bs + 1 {
                            None
                        } else {
                            Some((lx, ly, spec_content_ids(content.subrange(bs + 1, es))))
                        }
                    },
                },
            }
        }
    }
}

/// Reads one content line into local coordinates and the raw id list.
pub fn parse_content_line(line: &Vec<u8>) -> (r: Option<(u32, u32, Vec<u32>)>)
    ensures
        match spec_parse_content_line(line@) {
            None => r is None,
            Some((x, y, ids)) => (r matches Some(t) && t.0 == x && t.1 == y && t.2@ == ids),
        },
{
    let ci = find_byte(line, 58);
    if ci == line.len() {
        return None;
    }
    let head = slice_of(line, 0, ci);
    proof {
        assert(head@ =~= line@.take(ci as int));
    }
    let coords = split_all(&head, 45);
    let ghost cv = spec_split(head@, 45);
    if coords.len() != 2 {
        return None;
    }
    assert(coords@[0]@ == cv[0]);
    assert(coords@[1]@ == cv[1]);
    let lx = match parse_u32(&coords[0]) {
        Some(v) => v,
        None => {
            return None;
        },
    };
    let ly = match parse_u32(&coords[1]) {
        Some(v) => v,
        None => {
            return None;
        },
    };
    let content = slice_of(line, ci + 1, line.len());
    proof {
        assert(content@ =~= line@.skip(ci + 1 as int));
    }
    let bs = find_byte(&content, 123);
    let es = find_byte(&content, 125);
    if bs == content.len() || es == content.len() || es <= bs {
        return None;
    }
    let ids_str = slice_of(&content, bs + 1, es);
    let ids = content_ids(&ids_str);
    Some((lx, ly, ids))
}

/// What one line of a sector file contributes, given the file's sector
/// coordinates and the global minimum: `None` is a fatal coordinate
/// overflow, `Some(None)` a line with nothing to keep, `Some(Some(t))`
/// one tile stack.
pub open spec fn spec_line_entry(line: Seq<u8>, sx: u32, sy: u32, minx: u32, miny: u32) -> Option<
    Option<TileStackV>,
> {
    let t = spec_trim(line);
    if t.len() == 0 || t[0] == 35 || !spec_contains_seq(t, spec_key_content()) {
        Some(None)
    } else {
        match spec_parse_content_line(t) {
            None => Some(None),
            Some((lx, ly, ids)) => {
                if ids.len() == 0 {
                    Some(None)
                } else {
                    let wx = (sx - minx) * 32 + lx;
                    let wy = (sy - miny) * 32 + ly;
                    if wx > u32::MAX || wy > u32::MAX {
                        None
                    } else {
                        Some(
                            Some(
                                TileStackV { x: wx as u32, y: wy as u32, object_ids: ids },
                            ),
                        )
                    }
                }
            },
        }
    }
}

/// The stacks of a sector file's lines, in line order; `None` when a
/// world coordinate overflows.
pub open spec fn spec_stacks_lines(
    lines: Seq<Seq<u8>>,
    sx: u32,
    sy: u32,
    minx: u32,
    miny: u32,
) -> Option<Seq<TileStackV>>
    decreases lines.len(),
{
    if lines.len() == 0 {
        Some(Seq::empty())
    } else {
        match spec_stacks_lines(lines.drop_last(), sx, sy, minx, miny) {
            None => None,
            Some(r) => match spec_line_entry(lines.last(), sx, sy, minx, miny) {
                None => None,
                Some(None) => Some(r),
                Some(Some(t)) => Some(r.push(t)),
            },
        }
    }
}

proof fn lemma_stacks_lines_none(lines: Seq<Seq<u8>>, sx: u32, sy: u32, minx: u32, miny: u32, m: int)
    requires
        0 <= m <= lines.len(),
        spec_stacks_lines(lines.take(m), sx, sy, minx, miny) is None,
    ensures
        spec_stacks_lines(lines, sx, sy, minx, miny) is None,
    decreases lines.len() - m,
{
    if m == lines.len() {
        assert(lines.take(m) =~= lines);
    } else {
        assert(lines.take(m + 1).drop_last() =~= lines.take(m));
        lemma_stacks_lines_none(lines, sx, sy, minx, miny, m + 1);
    }
}

/// Errors of the sector loader: a file whose name or lines do not fit
/// the sector grammar, or whose coordinates leave the world grid.
#[derive(Debug, PartialEq, Eq, Structural, Clone, Copy)]
pub enum SectorError {
    Malformed,
}

/// The stacks of one sector file, or `None` when the file name does not
/// parse, lies below the global minimum, or a coordinate overflows.
pub open spec fn spec_sector_stacks(
    name: Seq<u8>,
    content: Seq<u8>,
    minx: u32,
    miny: u32,
) -> Option<Seq<TileStackV>> {
    match spec_parse_sector_coords(name) {
        None => None,
        Some((sx, sy, _z)) => {
            if sx < minx || sy < miny {
                None
            } else {
                spec_stacks_lines(spec_split(content, 10), sx, sy, minx, miny)
            }
        },
    }
}

/// Reads one sector file into tile stacks with world coordinates,
/// normalized against the global minimum sector.
pub fn parse_sector_file_stacks(
    name: &Vec<u8>,
    content: &Vec<u8>,
    min_sector_x: u32,
    min_sector_y: u32,
) -> (r: Result<Vec<TileStack>, SectorError>)
    ensures
        match r {
            Ok(ts) => spec_sector_stacks(name@, content@, min_sector_x, min_sector_y) == Some(
                ts@.map_values(|t: TileStack| t@),
            ),
            Err(_) => spec_sector_stacks(name@, content@, min_sector_x, min_sector_y) is None,
        },
{
    let (sx, sy, _z) = match parse_sector_coords(name) {
        Some(c) => c,
        None => {
            return Err(SectorError::Malformed);
        },
    };
    if sx < min_sector_x || sy < min_sector_y {
        return Err(SectorError::Malformed);
    }
    let ghost lv = spec_split(content@, 10);
    let lines = split_all(content, 10);
    let content_key = key_content();
    let mut out: Vec<TileStack> = Vec::new();
    let mut i: usize = 0;
    proof {
        assert(lv.take(0) =~= Seq::<Seq<u8>>::empty());
        assert(out@.map_values(|t: TileStack| t@) =~= Seq::<TileStackV>::empty());
    }
    while i < lines.len()
        invariant
            lv == lines@.map_values(|l: Vec<u8>| l@),
            lv == spec_split(content@, 10),
            content_key@ == spec_key_content(),
            (spec_parse_sector_coords(name@) matches Some(c) && c.0 == sx && c.1 == sy),
            sx >= min_sector_x,
            sy >= min_sector_y,
            i <= lines@.len(),
            spec_stacks_lines(lv.take(i as int), sx, sy, min_sector_x, min_sector_y) == Some(
                out@.map_values(|t: TileStack| t@),
            ),
        decreases lines@.len() - i,
    {
        assert(lines@[i as int]@ == lv[i as int]);
        proof {
            assert(lv.take(i + 1 as int).drop_last() =~= lv.take(i as int));
            assert(lv.take(i + 1 as int).last() == lv[i as int]);
        }
        let t = trim(&lines[i]);
        if t.len() == 0 || t[0] == 35 || !contains_seq(&t, &content_key) {
            // nothing on this line
        } else {
            match parse_content_line(&t) {
                None => {},
                Some((lx, ly, ids)) => {
                    if ids.len() == 0 {
                    } else {
                        let bx = (sx - min_sector_x).checked_mul(32);
                        let by = (sy - min_sector_y).checked_mul(32);
                        let wx = match bx {
                            Some(b) => match b.checked_add(lx) {
                                Some(v) => v,
                                None => {
                                    proof {
                                        lemma_stacks_lines_none(
                                            lv,
                                            sx,
                                            sy,
                                            min_sector_x,
                                            min_sector_y,
                                            i + 1,
                                        );
                                    }
                                    return Err(SectorError::Malformed);
                                },
                            },
                            None => {
                                proof {
                                    lemma_stacks_lines_none(
                                        lv,
                                        sx,
                                        sy,
                                        min_sector_x,
                                        min_sector_y,
                                        i + 1,
                                    );
                                }
                                return Err(SectorError::Malformed);
                            },
                        };
                        let wy = match by {
                            Some(b) => match b.checked_add(ly) {
                                Some(v) => v,
                                None => {
                                    proof {
                                        lemma_stacks_lines_none(
                                            lv,
                                            sx,
                                            sy,
                                            min_sector_x,
                                            min_sector_y,
                                            i + 1,
                                        );
                                    }
                                    return Err(SectorError::Malformed);
                                },
                            },
                            None => {
                                proof {
                                    lemma_stacks_lines_none(
                                        lv,
                                        sx,
                                        sy,
                                        min_sector_x,
                                        min_sector_y,
                                        i + 1,
                                    );
                                }
                                return Err(SectorError::Malformed);
                            },
                        };
                        let ghost out0 = out@.map_values(|t: TileStack| t@);
                        out.push(TileStack { x: wx, y: wy, object_ids: ids });
                        proof {
                            assert(out@.map_values(|t: TileStack| t@) =~= out0.push(
                                out@.last()@,
                            ));
                        }
                    }
                },
            }
        }
        i = i + 1;
    }
    proof {
        assert(lv.take(i as int) =~= lv);
    }
    Ok(out)
}

/// Back-to-front paint order: lower rows first, and left to right
/// within a row.
pub open spec fn key_le(a: TileStackV, b: TileStackV) -> bool {
    a.y < b.y || (a.y == b.y && a.x <= b.x)
}

pub open spec fn sorted_yx(s: Seq<TileStackV>) -> bool {
    forall|i: int, j: int| 0 <= i < j < s.len() ==> key_le(#[trigger] s[i], #[trigger] s[j])
}

/// `t` placed after every leading element that does not paint over it.
pub open spec fn insert_sorted(t: TileStackV, s: Seq<TileStackV>) -> Seq<TileStackV>
    decreases s.len(),
{
    if s.len() == 0 {
        seq![t]
    } else if key_le(s[0], t) {
        seq![s[0]] + insert_sorted(t, s.skip(1))
    } else {
        seq![t] + s
    }
}

/// Where `t` lands: after the longest prefix of elements ordered at or
/// before it.
pub open spec fn insert_pos(t: TileStackV, s: Seq<TileStackV>) -> int
    decreases s.len(),
{
    if s.len() == 0 {
        0
    } else if key_le(s[0], t) {
        1 + insert_pos(t, s.skip(1))
    } else {
        0
    }
}

proof fn lemma_insert_sorted_eq(t: TileStackV, s: Seq<TileStackV>)
    ensures
        0 <= insert_pos(t, s) <= s.len(),
        insert_sorted(t, s) == s.take(insert_pos(t, s)) + seq![t] + s.skip(insert_pos(t, s)),
        forall|j: int| 0 <= j < insert_pos(t, s) ==> key_le(#[trigger] s[j], t),
        insert_pos(t, s) < s.len() ==> !key_le(s[insert_pos(t, s)], t),
    decreases s.len(),
{
    if s.len() == 0 {
        assert(insert_sorted(t, s) =~= s.take(0) + seq![t] + s.skip(0));
    } else if key_le(s[0], t) {
        lemma_insert_sorted_eq(t, s.skip(1));
        let p = insert_pos(t, s.skip(1));
        assert(s.take(p + 1) =~= seq![s[0]] + s.skip(1).take(p));
        assert(s.skip(p + 1) =~= s.skip(1).skip(p));
        assert(insert_sorted(t, s) =~= s.take(p + 1) + seq![t] + s.skip(p + 1));
        assert forall|j: int| 0 <= j < insert_pos(t, s) implies key_le(#[trigger] s[j], t) by {
            if j > 0 {
                assert(s.skip(1)[j - 1] == s[j]);
            }
        }
        if insert_pos(t, s) < s.len() {
            assert(s.skip(1)[p] == s[p + 1]);
        }
    } else {
        assert(insert_sorted(t, s) =~= s.take(0) + seq![t] + s.skip(0));
    }
}

/// The list sorted stably by `(y, x)`: each element is inserted, in
/// order, after every earlier element at or before its key.
pub open spec fn spec_stable_sort(s: Seq<TileStackV>) -> Seq<TileStackV>
    decreases s.len(),
{
    if s.len() == 0 {
        Seq::empty()
    } else {
        insert_sorted(s.last(), spec_stable_sort(s.drop_last()))
    }
}

proof fn lemma_insert_sorted_sorted(t: TileStackV, s: Seq<TileStackV>)
    requires
        sorted_yx(s),
    ensures
        sorted_yx(insert_sorted(t, s)),
{
    lemma_insert_sorted_eq(t, s);
    let p = insert_pos(t, s);
    let w = insert_sorted(t, s);
    assert forall|i: int, j: int| 0 <= i < j < w.len() implies key_le(
        #[trigger] w[i],
        #[trigger] w[j],
    ) by {
        if i < p {
            assert(w[i] == s[i]);
        } else if i == p {
            assert(w[i] == t);
        } else {
            assert(w[i] == s[i - 1]);
        }
        if j < p {
            assert(w[j] == s[j]);
        } else if j == p {
            assert(w[j] == t);
        } else {
            assert(w[j] == s[j - 1]);
        }
        if i < p && j == p {
            assert(key_le(s[i], t));
        }
        if i == p && j > p {
            assert(!key_le(s[p], t));
        }
        if i < p && j > p {
            assert(key_le(s[i], s[j - 1]));
        }
    }
}

/// The sort of a stack list is in paint order.
pub proof fn lemma_stable_sort_sorted(s: Seq<TileStackV>)
    ensures
        sorted_yx(spec_stable_sort(s)),
    decreases s.len(),
{
    if s.len() > 0 {
        lemma_stable_sort_sorted(s.drop_last());
        lemma_insert_sorted_sorted(s.last(), spec_stable_sort(s.drop_last()));
    }
}

/// The sort of a stack list holds exactly the same stacks.
pub proof fn lemma_stable_sort_permutes(s: Seq<TileStackV>)
    ensures
        spec_stable_sort(s).to_multiset() == s.to_multiset(),
    decreases s.len(),
{
    broadcast use vstd::seq_lib::group_to_multiset_ensures;

    if s.len() > 0 {
        lemma_stable_sort_permutes(s.drop_last());
        let r = spec_stable_sort(s.drop_last());
        let t = s.last();
        lemma_insert_sorted_eq(t, r);
        let p = insert_pos(t, r);
        vstd::seq_lib::lemma_multiset_commutative(r.take(p) + seq![t], r.skip(p));
        vstd::seq_lib::lemma_multiset_commutative(r.take(p), seq![t]);
        vstd::seq_lib::lemma_multiset_commutative(r.take(p), r.skip(p));
        assert(r.take(p) + r.skip(p) =~= r);
        assert(seq![t] =~= Seq::<TileStackV>::empty().push(t));
        assert(seq![t].to_multiset() =~= Multiset::<TileStackV>::empty().insert(t));
        assert(spec_stable_sort(s).to_multiset() =~= s.to_multiset()) by {
            assert(s.drop_last().push(t) =~= s);
        }
    }
}

proof fn lemma_insert_sorted_filter(t: TileStackV, s: Seq<TileStackV>, yy: u32, xx: u32)
    requires
        sorted_yx(s),
    ensures
        insert_sorted(t, s).filter(|u: TileStackV| u.y == yy && u.x == xx) == if t.y == yy && t.x
            == xx {
            s.filter(|u: TileStackV| u.y == yy && u.x == xx).push(t)
        } else {
            s.filter(|u: TileStackV| u.y == yy && u.x == xx)
        },
{
    let pred = |u: TileStackV| u.y == yy && u.x == xx;
    lemma_insert_sorted_eq(t, s);
    let p = insert_pos(t, s);
    let w = insert_sorted(t, s);
    Seq::filter_distributes_over_add(s.take(p) + seq![t], s.skip(p), pred);
    Seq::filter_distributes_over_add(s.take(p), seq![t], pred);
    Seq::filter_distributes_over_add(s.take(p), s.skip(p), pred);
    assert(s.take(p) + s.skip(p) =~= s);
    lemma_filter_singleton(t, pred);
    if pred(t) {
        // nothing after the insertion point shares the key: those
        // elements are strictly later in paint order
        assert forall|j: int| 0 <= j < s.skip(p).len() implies !pred(#[trigger] s.skip(p)[j]) by {
            assert(s.skip(p)[j] == s[p + j]);
            if p < s.len() {
                if j > 0 {
                    assert(key_le(s[p], s[p + j]));
                }
                assert(!key_le(s[p], t));
            }
        }
        crate::bytes::lemma_filter_none(s.skip(p), pred);
        assert(w.filter(pred) =~= s.filter(pred).push(t));
    } else {
        assert(w.filter(pred) =~= s.filter(pred));
    }
}

proof fn lemma_filter_singleton<A>(x: A, pred: spec_fn(A) -> bool)
    ensures
        seq![x].filter(pred) == if pred(x) {
            seq![x]
        } else {
            Seq::<A>::empty()
        },
{
    reveal_with_fuel(Seq::filter, 2);
    assert(seq![x].drop_last() =~= Seq::<A>::empty());
    if pred(x) {
        assert(seq![x].filter(pred) =~= seq![x]);
    } else {
        assert(seq![x].filter(pred) =~= Seq::<A>::empty());
    }
}

/// Stability of the sort: the stacks of any one world position keep
/// their relative order.
pub proof fn lemma_stable_sort_stable(s: Seq<TileStackV>, yy: u32, xx: u32)
    ensures
        spec_stable_sort(s).filter(|u: TileStackV| u.y == yy && u.x == xx) == s.filter(
            |u: TileStackV| u.y == yy && u.x == xx,
        ),
    decreases s.len(),
{
    reveal(Seq::filter);
    let pred = |u: TileStackV| u.y == yy && u.x == xx;
    if s.len() > 0 {
        lemma_stable_sort_stable(s.drop_last(), yy, xx);
        lemma_stable_sort_sorted(s.drop_last());
        lemma_insert_sorted_filter(s.last(), spec_stable_sort(s.drop_last()), yy, xx);
    }
}

fn key_le_exec(a: &TileStack, b: &TileStack) -> (r: bool)
    ensures
        r == key_le(a@, b@),
{
    a.y < b.y || (a.y == b.y && a.x <= b.x)
}

/// Sorts the stacks into paint order: ascending by `(y, x)`, stacks of
/// equal position kept in their given order.
pub fn sort_tiles(tiles: Vec<TileStack>) -> (r: Vec<TileStack>)
    ensures
        r@.map_values(|t: TileStack| t@) == spec_stable_sort(tiles@.map_values(|t: TileStack| t@)),
        sorted_yx(r@.map_values(|t: TileStack| t@)),
{
    let ghost inv = tiles@.map_values(|t: TileStack| t@);
    let mut out: Vec<TileStack> = Vec::new();
    let mut i: usize = 0;
    proof {
        assert(inv.take(0) =~= Seq::<TileStackV>::empty());
        assert(out@.map_values(|t: TileStack| t@) =~= Seq::<TileStackV>::empty());
    }
    let n = tiles.len();
    let mut rest = tiles;
    let ghost restv = inv;
    // consume the input front to back, inserting each stack into place
    while i < n
        invariant
            n == inv.len(),
            i <= n,
            rest@.map_values(|t: TileStack| t@) == inv.skip(i as int),
            out@.map_values(|t: TileStack| t@) == spec_stable_sort(inv.take(i as int)),
            sorted_yx(out@.map_values(|t: TileStack| t@)),
        decreases n - i,
    {
        let ghost outv = out@.map_values(|t: TileStack| t@);
        let ghost rv0 = rest@;
        proof {
            assert(rest@.len() == inv.skip(i as int).len());
        }
        let t = rest.remove(0);
        proof {
            assert(rest@ =~= rv0.skip(1));
            assert(rv0.map_values(|tt: TileStack| tt@)[0] == inv.skip(i as int)[0]);
            assert(t@ == inv[i as int]);
            assert forall|k: int| 0 <= k < rest@.len() implies rest@.map_values(
                |tt: TileStack| tt@,
            )[k] == #[trigger] inv.skip(i + 1 as int)[k] by {
                assert(rv0.map_values(|tt: TileStack| tt@)[k + 1] == inv.skip(i as int)[k + 1]);
            }
            assert(rest@.map_values(|tt: TileStack| tt@) =~= inv.skip(i + 1 as int));
        }
        let mut j: usize = out.len();
        while j > 0 && !key_le_exec(&out[j - 1], &t)
            invariant
                outv == out@.map_values(|tt: TileStack| tt@),
                j <= out@.len(),
                forall|k: int| j <= k < outv.len() ==> !key_le(#[trigger] outv[k], t@),
            decreases j,
        {
            j = j - 1;
        }
        proof {
            if j > 0 {
                assert(key_le(outv[j - 1], t@));
                assert forall|k: int| 0 <= k < j implies key_le(#[trigger] outv[k], t@) by {
                    if k < j - 1 {
                        assert(key_le(outv[k], outv[j - 1]));
                    }
                }
            }
            lemma_insert_sorted_eq(t@, outv);
            let p = insert_pos(t@, outv);
            if p < j {
                assert(key_le(outv[p], t@));
            }
            if j < p {
                assert(key_le(outv[j as int], t@));
            }
            assert(p == j);
            lemma_insert_sorted_sorted(t@, outv);
        }
        out.insert(j, t);
        proof {
            assert(out@.map_values(|tt: TileStack| tt@) =~= outv.take(j as int) + seq![t@]
                + outv.skip(j as int));
            assert(inv.take(i + 1 as int).drop_last() =~= inv.take(i as int));
            assert(inv.take(i + 1 as int).last() == inv[i as int]);
        }
        i = i + 1;
    }
    proof {
        assert(inv.take(i as int) =~= inv);
    }
    out
}

/// Mathematical image of a `SectorFile`.
pub struct SectorFileV {
    pub name: Seq<u8>,
    pub content: Seq<u8>,
}

impl View for SectorFile {
    type V = SectorFileV;

    open spec fn view(&self) -> SectorFileV {
        SectorFileV { name: self.name@, content: self.content@ }
    }
}

/// What one file contributes to a floor: nothing when its name is not
/// of the floor or the file fails the sector grammar.
pub open spec fn spec_file_tiles(f: SectorFileV, floor: u8, minx: u32, miny: u32) -> Seq<
    TileStackV,
> {
    if spec_matches_pattern(f.name, floor) {
        match spec_sector_stacks(f.name, f.content, minx, miny) {
            Some(ts) => ts,
            None => Seq::empty(),
        }
    } else {
        Seq::empty()
    }
}

/// The stacks of all files of one floor, in file order.
pub open spec fn spec_collect_tiles(
    fs: Seq<SectorFileV>,
    floor: u8,
    minx: u32,
    miny: u32,
) -> Seq<TileStackV>
    decreases fs.len(),
{
    if fs.len() == 0 {
        Seq::empty()
    } else {
        spec_collect_tiles(fs.drop_last(), floor, minx, miny) + spec_file_tiles(
            fs.last(),
            floor,
            minx,
            miny,
        )
    }
}

/// Loads one floor from its sector files: the files of the floor are
/// read, files that fail the sector grammar are skipped, and the stacks
/// are sorted into paint order, ascending by `(y, x)`, stable on ties.
/// All coordinates are normalized against the global minimum sector.
pub fn parse_sprite_map(
    files: &Vec<SectorFile>,
    floor: u8,
    global_min_sector_x: u32,
    global_min_sector_y: u32,
    global_max_sector_x: u32,
    global_max_sector_y: u32,
) -> (r: SpriteMapData)
    ensures
        r.floor == floor,
        r.min_sector_x == global_min_sector_x,
        r.max_sector_x == global_max_sector_x,
        r.min_sector_y == global_min_sector_y,
        r.max_sector_y == global_max_sector_y,
        r.version == 2,
        r.tiles@.map_values(|t: TileStack| t@) == spec_stable_sort(
            spec_collect_tiles(
                files@.map_values(|f: SectorFile| f@),
                floor,
                global_min_sector_x,
                global_min_sector_y,
            ),
        ),
        sorted_yx(r.tiles@.map_values(|t: TileStack| t@)),
        r.wf(),
{
    let ghost fv = files@.map_values(|f: SectorFile| f@);
    let mut collected: Vec<TileStack> = Vec::new();
    let mut i: usize = 0;
    proof {
        assert(fv.take(0) =~= Seq::<SectorFileV>::empty());
        assert(collected@.map_values(|t: TileStack| t@) =~= Seq::<TileStackV>::empty());
    }
    while i < files.len()
        invariant
            fv == files@.map_values(|f: SectorFile| f@),
            i <= files@.len(),
            collected@.map_values(|t: TileStack| t@) == spec_collect_tiles(
                fv.take(i as int),
                floor,
                global_min_sector_x,
                global_min_sector_y,
            ),
        decreases files@.len() - i,
    {
        let ghost col0 = collected@.map_values(|t: TileStack| t@);
        proof {
            assert(fv.take(i + 1 as int).drop_last() =~= fv.take(i as int));
            assert(fv.take(i + 1 as int).last() == fv[i as int]);
            assert(files@[i as int]@ == fv[i as int]);
        }
        if matches_pattern(&files[i].name, floor) {
            match parse_sector_file_stacks(
                &files[i].name,
                &files[i].content,
                global_min_sector_x,
                global_min_sector_y,
            ) {
                Ok(mut ts) => {
                    let ghost tsv = ts@.map_values(|t: TileStack| t@);
                    collected.append(&mut ts);
                    proof {
                        assert(collected@.map_values(|t: TileStack| t@) =~= col0 + tsv);
                    }
                },
                Err(_) => {
                    proof {
                        assert(col0 + Seq::<TileStackV>::empty() =~= col0);
                    }
                },
            }
        } else {
            proof {
                assert(col0 + Seq::<TileStackV>::empty() =~= col0);
            }
        }
        i = i + 1;
    }
    proof {
        assert(fv.take(i as int) =~= fv);
    }
    let tiles = sort_tiles(collected);
    SpriteMapData {
        floor,
        tiles,
        min_sector_x: global_min_sector_x,
        max_sector_x: global_max_sector_x,
        min_sector_y: global_min_sector_y,
        max_sector_y: global_max_sector_y,
        version: 2,
    }
}

} // verus!
