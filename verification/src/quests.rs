//! Quest chests, read straight out of the sector files, with their
//! names from the quest overview CSV.

use vstd::prelude::*;
use std::collections::HashMap;
use crate::bytes::{
    contains_seq, spec_contains_seq, find_sub, first_sub, first_index, find_byte, first_nondigit,
    leading_digits, parse_u32, slice_of, spec_parse_u32, spec_split, spec_splitn, spec_trim,
    split_all, splitn_all, trim,
};
use crate::sectors::{SectorFile, SectorFileV, spec_first_token, spec_parse_sector_coords,
    parse_sector_coords};

verus! {

broadcast use vstd::std_specs::hash::group_hash_axioms;

/// Mathematical image of a `QuestChest`.
pub struct QuestChestV {
    pub quest_number: u32,
    pub x: u32,
    pub y: u32,
    pub z: u8,
    pub chest_object_id: u32,
    pub quest_name: Option<Seq<u8>>,
}

/// One quest chest: its quest number, world position, the chest object
/// that holds it, and the quest's name when the overview knows it.
#[derive(Debug, Clone)]
pub struct QuestChest {
    pub quest_number: u32,
    pub x: u32,
    pub y: u32,
    pub z: u8,
    pub chest_object_id: u32,
    pub quest_name: Option<Vec<u8>>,
}

impl View for QuestChest {
    type V = QuestChestV;

    open spec fn view(&self) -> QuestChestV {
        QuestChestV {
            quest_number: self.quest_number,
            x: self.x,
            y: self.y,
            z: self.z,
            chest_object_id: self.chest_object_id,
            quest_name: match self.quest_name {
                Some(n) => Some(n@),
                None => None,
            },
        }
    }
}

pub open spec fn spec_key_quest_number() -> Seq<u8> {
    seq![67u8, 104, 101, 115, 116, 81, 117, 101, 115, 116, 78, 117, 109, 98, 101, 114, 61]
}

/// The byte string `ChestQuestNumber=`.
pub fn key_quest_number() -> (v: Vec<u8>)
    ensures
        v@ == spec_key_quest_number(),
{
    let v: Vec<u8> = vec![67u8, 104, 101, 115, 116, 81, 117, 101, 115, 116, 78, 117, 109, 98, 101,
        114, 61];
    proof {
        assert(v@ =~= spec_key_quest_number());
    }
    v
}

pub open spec fn spec_key_content_brace() -> Seq<u8> {
    seq![67u8, 111, 110, 116, 101, 110, 116, 61, 123]
}

/// The byte string `Content={`.
pub fn key_content_brace() -> (v: Vec<u8>)
    ensures
        v@ == spec_key_content_brace(),
{
    let v: Vec<u8> = vec![67u8, 111, 110, 116, 101, 110, 116, 61, 123];
    proof {
        assert(v@ =~= spec_key_content_brace());
    }
    v
}

/// The quest number of a line: the decimal digits right after the
/// first `ChestQuestNumber=`.
pub open spec fn spec_extract_quest_number(content: Seq<u8>) -> Option<u32> {
    let i = first_sub(content, spec_key_quest_number());
    if i < 0 {
        None
    } else {
        let rest = content.skip(i + spec_key_quest_number().len());
        spec_parse_u32(rest.take(first_nondigit(rest)))
    }
}

/// Reads the quest number out of a line.
pub fn extract_quest_number(content: &Vec<u8>) -> (r: Option<u32>)
    ensures
        r == spec_extract_quest_number(content@),
{
    let key = key_quest_number();
    let n = content.len();
    let start = match find_sub(content, &key) {
        Some(i) => i,
        None => {
            return None;
        },
    };
    proof {
        crate::bytes::lemma_first_sub(content@, key@);
    }
    let rest = slice_of(content, start + key.len(), n);
    proof {
        assert(rest@ =~= content@.skip(start + spec_key_quest_number().len()));
    }
    let digits = leading_digits(&rest);
    parse_u32(&digits)
}

/// The chest object of a content list: among the first three entries,
/// the first whose leading token is an id in the chest range; an entry
/// without a token ends the search.
pub open spec fn chest_scan(items: Seq<Seq<u8>>, k: nat) -> Option<u32>
    decreases k,
{
    if k == 0 || items.len() == 0 {
        None
    } else {
        match spec_first_token(spec_trim(items[0])) {
            None => None,
            Some(tok) => match spec_parse_u32(tok) {
                Some(id) => {
                    if 2543 <= id <= 2560 {
                        Some(id)
                    } else {
                        chest_scan(items.skip(1), (k - 1) as nat)
                    }
                },
                None => chest_scan(items.skip(1), (k - 1) as nat),
            },
        }
    }
}

/// The chest object id of a line: scanned from the first three entries
/// of its first brace-enclosed content list.
pub open spec fn spec_extract_chest_object_id(content: Seq<u8>) -> Option<u32> {
    let ci = first_sub(content, spec_key_content_brace());
    if ci < 0 {
        None
    } else {
        let rest = content.skip(ci + spec_key_content_brace().len());
        let close = first_index(rest, 125);
        if close == rest.len() {
            None
        } else {
            chest_scan(spec_split(rest.take(close), 44), 3)
        }
    }
}

/// The first whitespace-separated token of the trimmed piece.
fn first_token_of(p: &Vec<u8>) -> (r: Option<Vec<u8>>)
    ensures
        match spec_first_token(spec_trim(p@)) {
            None => r is None,
            Some(tok) => (r matches Some(t) && t@ == tok),
        },
{
    let t = trim(p);
    let mut a: usize = 0;
    while a < t.len() && crate::bytes::is_space_exec(t[a])
        invariant
            a <= t@.len(),
            forall|j: int| 0 <= j < a ==> crate::bytes::is_space(#[trigger] t@[j]),
        decreases t@.len() - a,
    {
        a = a + 1;
    }
    proof {
        crate::bytes::lemma_trim_front_skip(t@, a as int);
    }
    if a == t.len() {
        return None;
    }
    let mut b: usize = a;
    while b < t.len() && !crate::bytes::is_space_exec(t[b])
        invariant
            a <= b <= t@.len(),
            a < t@.len(),
            forall|j: int| a <= j < b ==> !crate::bytes::is_space(#[trigger] t@[j]),
        decreases t@.len() - b,
    {
        b = b + 1;
    }
    let tok = slice_of(&t, a, b);
    proof {
        crate::sectors::lemma_first_space_is(t@.skip(a as int), b - a);
        assert(t@.skip(a as int).take(b - a) =~= t@.subrange(a as int, b as int));
    }
    Some(tok)
}

/// Reads the chest object id out of a line.
pub fn extract_chest_object_id(content: &Vec<u8>) -> (r: Option<u32>)
    ensures
        r == spec_extract_chest_object_id(content@),
{
    let key = key_content_brace();
    let n = content.len();
    let ci = match find_sub(content, &key) {
        Some(i) => i,
        None => {
            return None;
        },
    };
    proof {
        crate::bytes::lemma_first_sub(content@, key@);
    }
    let rest = slice_of(content, ci + key.len(), n);
    proof {
        assert(rest@ =~= content@.skip(ci + spec_key_content_brace().len()));
    }
    let close = find_byte(&rest, 125);
    if close == rest.len() {
        return None;
    }
    let ids_part = slice_of(&rest, 0, close);
    proof {
        assert(ids_part@ =~= rest@.take(close as int));
    }
    let ghost full = spec_split(ids_part@, 44);
    let items = split_all(&ids_part, 44);
    let mut k: usize = 0;
    proof {
        assert(full.skip(0) =~= full);
    }
    while k < 3 && k < items.len()
        invariant
            full == items@.map_values(|p: Vec<u8>| p@),
            k <= items@.len(),
            k <= 3,
            chest_scan(full, 3) == chest_scan(full.skip(k as int), (3 - k) as nat),
            spec_extract_chest_object_id(content@) == chest_scan(full, 3),
        decreases 3 - k,
    {
        assert(items@[k as int]@ == full[k as int]);
        proof {
            assert(full.skip(k as int)[0] == full[k as int]);
            assert(full.skip(k as int).skip(1) =~= full.skip(k + 1 as int));
        }
        match first_token_of(&items[k]) {
            None => {
                return None;
            },
            Some(tok) => {
                match parse_u32(&tok) {
                    Some(id) => {
                        if 2543 <= id && id <= 2560 {
                            return Some(id);
                        }
                    },
                    None => {},
                }
            },
        }
        k = k + 1;
    }
    None
}

/// One candidate line of a sector file, given the file's sector
/// coordinates and the name table: `Some(None)` when the line is not a
/// chest line, `None` when it fails the chest grammar or its world
/// coordinate leaves the grid, `Some(Some(c))` for one chest.
pub open spec fn spec_questchest_line(
    line: Seq<u8>,
    sector_x: u32,
    sector_y: u32,
    z: u8,
    names: Map<u32, Seq<u8>>,
) -> Option<Option<QuestChestV>> {
    let ps = spec_splitn(line, 58, 2);
    if ps.len() < 2 {
        Some(None)
    } else {
        let coords = spec_split(ps[0], 45);
        if coords.len() != 2 {
            Some(None)
        } else {
            match spec_parse_u32(spec_trim(coords[0])) {
                None => None,
                Some(lx) => match spec_parse_u32(spec_trim(coords[1])) {
                    None => None,
                    Some(ly) => match spec_extract_quest_number(ps[1]) {
                        None => None,
                        Some(qn) => {
                            let chest = match spec_extract_chest_object_id(ps[1]) {
                                Some(c) => c,
                                None => 0,
                            };
                            let wx = sector_x * 32 + lx;
                            let wy = sector_y * 32 + ly;
                            if wx > u32::MAX || wy > u32::MAX {
                                None
                            } else {
                                Some(
                                    Some(
                                        QuestChestV {
                                            quest_number: qn,
                                            x: wx as u32,
                                            y: wy as u32,
                                            z,
                                            chest_object_id: chest,
                                            quest_name: if names.contains_key(qn) {
                                                Some(names[qn])
                                            } else {
                                                None
                                            },
                                        },
                                    ),
                                )
                            }
                        },
                    },
                },
            }
        }
    }
}

/// Reads one chest line of a sector file.
pub fn parse_questchest_line(
    line: &Vec<u8>,
    sector_x: u32,
    sector_y: u32,
    z: u8,
    names: &HashMap<u32, Vec<u8>>,
) -> (r: Option<Option<QuestChest>>)
    ensures
        match spec_questchest_line(
            line@,
            sector_x,
            sector_y,
            z,
            names@.map_values(|n: Vec<u8>| n@),
        ) {
            None => r is None,
            Some(None) => (r matches Some(o) && o is None),
            Some(Some(v)) => (r matches Some(o) && o matches Some(c) && c@ == v),
        },
{
    let ghost nm = names@.map_values(|n: Vec<u8>| n@);
    let ghost psv = spec_splitn(line@, 58, 2);
    let ps = splitn_all(line, 58, 2);
    if ps.len() < 2 {
        return Some(None);
    }
    assert(ps@[0]@ == psv[0]);
    assert(ps@[1]@ == psv[1]);
    let ghost cv = spec_split(psv[0], 45);
    let coords = split_all(&ps[0], 45);
    if coords.len() != 2 {
        return Some(None);
    }
    assert(coords@[0]@ == cv[0]);
    assert(coords@[1]@ == cv[1]);
    let lx = match parse_u32(&trim(&coords[0])) {
        Some(v) => v,
        None => {
            return None;
        },
    };
    let ly = match parse_u32(&trim(&coords[1])) {
        Some(v) => v,
        None => {
            return None;
        },
    };
    let qn = match extract_quest_number(&ps[1]) {
        Some(v) => v,
        None => {
            return None;
        },
    };
    let chest = match extract_chest_object_id(&ps[1]) {
        Some(c) => c,
        None => 0,
    };
    let wx = match sector_x.checked_mul(32) {
        Some(b) => match b.checked_add(lx) {
            Some(v) => v,
            None => {
                return None;
            },
        },
        None => {
            return None;
        },
    };
    let wy = match sector_y.checked_mul(32) {
        Some(b) => match b.checked_add(ly) {
            Some(v) => v,
            None => {
                return None;
            },
        },
        None => {
            return None;
        },
    };
    let quest_name = match names.get(&qn) {
        Some(n) => {
            let cpy = slice_of(n, 0, n.len());
            proof {
                assert(cpy@ =~= n@);
            }
            Some(cpy)
        },
        None => None,
    };
    proof {
        if names@.contains_key(qn) {
            assert(nm.contains_key(qn));
            assert(nm[qn] == names@[qn]@);
        } else {
            assert(!nm.contains_key(qn));
        }
    }
    Some(
        Some(QuestChest { quest_number: qn, x: wx, y: wy, z, chest_object_id: chest, quest_name }),
    )
}

/// The chests of one file's lines, in order: only lines holding
/// `ChestQuestNumber=` are candidates, and a candidate that fails the
/// grammar is skipped.
pub open spec fn spec_file_chests(
    lines: Seq<Seq<u8>>,
    sector_x: u32,
    sector_y: u32,
    z: u8,
    names: Map<u32, Seq<u8>>,
) -> Seq<QuestChestV>
    decreases lines.len(),
{
    if lines.len() == 0 {
        Seq::empty()
    } else {
        spec_file_chests(lines.drop_last(), sector_x, sector_y, z, names) + (if spec_contains_seq(
            lines.last(),
            spec_key_quest_number(),
        ) {
            match spec_questchest_line(lines.last(), sector_x, sector_y, z, names) {
                Some(Some(c)) => seq![c],
                _ => Seq::empty(),
            }
        } else {
            Seq::empty()
        })
    }
}

/// The chests of a whole set of sector files, file by file: files not
/// named `<x>-<y>-<z>.sec`, or of floors not chosen, contribute
/// nothing.
pub open spec fn spec_sector_chests(
    files: Seq<SectorFileV>,
    floors: Seq<u8>,
    names: Map<u32, Seq<u8>>,
) -> Seq<QuestChestV>
    decreases files.len(),
{
    if files.len() == 0 {
        Seq::empty()
    } else {
        spec_sector_chests(files.drop_last(), floors, names) + (
        match spec_parse_sector_coords(files.last().name) {
            None => Seq::empty(),
            Some((sx, sy, z)) => {
                if floors.contains(z) {
                    spec_file_chests(
                        spec_split(files.last().content, 10),
                        sx,
                        sy,
                        z,
                        names,
                    )
                } else {
                    Seq::empty()
                }
            },
        })
    }
}

/// Gathers the quest chests of the chosen floors out of the sector
/// files, with their names looked up in the overview table.
pub fn parse_questchests_from_sectors(
    files: &Vec<SectorFile>,
    floors: &Vec<u8>,
    names: &HashMap<u32, Vec<u8>>,
) -> (r: Vec<QuestChest>)
    ensures
        r@.map_values(|c: QuestChest| c@) == spec_sector_chests(
            files@.map_values(|f: SectorFile| f@),
            floors@,
            names@.map_values(|n: Vec<u8>| n@),
        ),
{
    let ghost fv = files@.map_values(|f: SectorFile| f@);
    let ghost nm = names@.map_values(|n: Vec<u8>| n@);
    let key = key_quest_number();
    let mut out: Vec<QuestChest> = Vec::new();
    let mut i: usize = 0;
    proof {
        assert(fv.take(0) =~= Seq::<SectorFileV>::empty());
        assert(out@.map_values(|c: QuestChest| c@) =~= Seq::<QuestChestV>::empty());
    }
    while i < files.len()
        invariant
            fv == files@.map_values(|f: SectorFile| f@),
            nm == names@.map_values(|n: Vec<u8>| n@),
            key@ == spec_key_quest_number(),
            i <= files@.len(),
            out@.map_values(|c: QuestChest| c@) == spec_sector_chests(
                fv.take(i as int),
                floors@,
                nm,
            ),
        decreases files@.len() - i,
    {
        let ghost col0 = out@.map_values(|c: QuestChest| c@);
        proof {
            assert(fv.take(i + 1 as int).drop_last() =~= fv.take(i as int));
            assert(fv.take(i + 1 as int).last() == fv[i as int]);
            assert(files@[i as int]@ == fv[i as int]);
        }
        match parse_sector_coords(&files[i].name) {
            None => {
                proof {
                    assert(col0 + Seq::<QuestChestV>::empty() =~= col0);
                }
            },
            Some((sx, sy, z)) => {
                if crate::monsters::floor_listed(floors, z) {
                    let ghost lv = spec_split(fv[i as int].content, 10);
                    let lines = split_all(&files[i].content, 10);
                    let mut k: usize = 0;
                    proof {
                        assert(lv.take(0) =~= Seq::<Seq<u8>>::empty());
                        assert(col0 + Seq::<QuestChestV>::empty() =~= col0);
                    }
                    while k < lines.len()
                        invariant
                            lv == lines@.map_values(|l: Vec<u8>| l@),
                            nm == names@.map_values(|n: Vec<u8>| n@),
                            key@ == spec_key_quest_number(),
                            k <= lines@.len(),
                            out@.map_values(|c: QuestChest| c@) == col0 + spec_file_chests(
                                lv.take(k as int),
                                sx,
                                sy,
                                z,
                                nm,
                            ),
                        decreases lines@.len() - k,
                    {
                        let ghost sofar = out@.map_values(|c: QuestChest| c@);
                        proof {
                            assert(lv.take(k + 1 as int).drop_last() =~= lv.take(k as int));
                            assert(lv.take(k + 1 as int).last() == lv[k as int]);
                            assert(lines@[k as int]@ == lv[k as int]);
                        }
                        if contains_seq(&lines[k], &key) {
                            match parse_questchest_line(&lines[k], sx, sy, z, names) {
                                Some(Some(c)) => {
                                    out.push(c);
                                    proof {
                                        assert(out@.map_values(|cc: QuestChest| cc@)
                                            =~= sofar.push(out@.last()@));
                                        assert(sofar.push(out@.last()@) =~= sofar + seq![
                                            out@.last()@,
                                        ]);
                                        assert(col0 + (spec_file_chests(
                                            lv.take(k as int),
                                            sx,
                                            sy,
                                            z,
                                            nm,
                                        ) + seq![out@.last()@]) =~= (col0 + spec_file_chests(
                                            lv.take(k as int),
                                            sx,
                                            sy,
                                            z,
                                            nm,
                                        )) + seq![out@.last()@]);
                                    }
                                },
                                _ => {
                                    proof {
                                        assert(spec_file_chests(lv.take(k as int), sx, sy, z, nm)
                                            + Seq::<QuestChestV>::empty() =~= spec_file_chests(
                                            lv.take(k as int),
                                            sx,
                                            sy,
                                            z,
                                            nm,
                                        ));
                                    }
                                },
                            }
                        } else {
                            proof {
                                assert(spec_file_chests(lv.take(k as int), sx, sy, z, nm)
                                    + Seq::<QuestChestV>::empty() =~= spec_file_chests(
                                    lv.take(k as int),
                                    sx,
                                    sy,
                                    z,
                                    nm,
                                ));
                            }
                        }
                        k = k + 1;
                    }
                    proof {
                        assert(lv.take(k as int) =~= lv);
                    }
                } else {
                    proof {
                        assert(col0 + Seq::<QuestChestV>::empty() =~= col0);
                    }
                }
            },
        }
        i = i + 1;
    }
    proof {
        assert(fv.take(i as int) =~= fv);
    }
    out
}

/// The name of each quest, read from the overview CSV: every line
/// after the header that starts with a quest number.
pub open spec fn spec_quest_names(lines: Seq<Seq<u8>>) -> Map<u32, Seq<u8>>
    decreases lines.len(),
{
    if lines.len() == 0 {
        Map::empty()
    } else {
        let m = spec_quest_names(lines.drop_last());
        let line = lines.last();
        if line.len() == 0 {
            m
        } else {
            let ps = spec_splitn(line, 44, 3);
            if ps.len() < 2 {
                m
            } else {
                match spec_parse_u32(spec_trim(ps[0])) {
                    None => m,
                    Some(q) => m.insert(q, spec_trim(ps[1])),
                }
            }
        }
    }
}

/// Parses the quest overview CSV into the quest-number-to-name table;
/// the first line is the header.
pub fn parse_quest_csv(content: &Vec<u8>) -> (m: HashMap<u32, Vec<u8>>)
    ensures
        m@.dom() =~= spec_quest_names(spec_split(content@, 10).skip(1)).dom(),
        forall|q: u32| #[trigger]
            m@.contains_key(q) ==> m@[q]@ == spec_quest_names(
                spec_split(content@, 10).skip(1),
            )[q],
{
    let ghost lv = spec_split(content@, 10);
    let ghost sub = lv.skip(1);
    let lines = split_all(content, 10);
    let mut m: HashMap<u32, Vec<u8>> = HashMap::new();
    let mut i: usize = 1;
    proof {
        assert(sub.take(0) =~= Seq::<Seq<u8>>::empty());
    }
    while i < lines.len()
        invariant
            lv == lines@.map_values(|l: Vec<u8>| l@),
            sub == lv.skip(1),
            1 <= i <= lines@.len() || (lines@.len() == 0 && i == 1),
            m@.dom() =~= spec_quest_names(sub.take(i - 1)).dom(),
            forall|q: u32| #[trigger]
                m@.contains_key(q) ==> m@[q]@ == spec_quest_names(sub.take(i - 1))[q],
        decreases lines@.len() - i,
    {
        assert(lines@[i as int]@ == lv[i as int]);
        proof {
            assert(sub.take(i as int).drop_last() =~= sub.take(i - 1));
            assert(sub.take(i as int).last() == lv[i as int]);
        }
        if lines[i].len() > 0 {
            let ghost psv = spec_splitn(lv[i as int], 44, 3);
            let ps = splitn_all(&lines[i], 44, 3);
            if ps.len() >= 2 {
                assert(ps@[0]@ == psv[0]);
                assert(ps@[1]@ == psv[1]);
                match parse_u32(&trim(&ps[0])) {
                    Some(q) => {
                        m.insert(q, trim(&ps[1]));
                    },
                    None => {},
                }
            }
        }
        i = i + 1;
    }
    proof {
        if lines@.len() == 0 {
            assert(sub =~= Seq::<Seq<u8>>::empty());
            assert(sub.take(0) =~= sub);
        } else {
            assert(sub.take(i - 1) =~= sub);
        }
    }
    m
}

/// The chests that lie on one of the chosen floors, in order.
pub fn chests_on_floors(chests: Vec<QuestChest>, floors: &Vec<u8>) -> (r: Vec<QuestChest>)
    ensures
        r@.map_values(|c: QuestChest| c@) == chests@.map_values(|c: QuestChest| c@).filter(
            |v: QuestChestV| floors@.contains(v.z),
        ),
{
    let ghost nv = chests@.map_values(|c: QuestChest| c@);
    let mut out: Vec<QuestChest> = Vec::new();
    let mut rest = chests;
    let initial_len = rest.len();
    let mut i: usize = 0;
    proof {
        assert(nv.len() == initial_len);
        assert(nv.take(0) =~= Seq::<QuestChestV>::empty());
        crate::bytes::lemma_filter_empty(|v: QuestChestV| floors@.contains(v.z));
        assert(out@.map_values(|c: QuestChest| c@) =~= Seq::<QuestChestV>::empty());
        assert(rest@.map_values(|c: QuestChest| c@) =~= nv.skip(0));
    }
    while rest.len() > 0
        invariant
            i + rest@.len() == nv.len(),
            nv.len() <= usize::MAX,
            rest@.map_values(|c: QuestChest| c@) == nv.skip(i as int),
            out@.map_values(|c: QuestChest| c@) == nv.take(i as int).filter(
                |v: QuestChestV| floors@.contains(v.z),
            ),
        decreases rest@.len(),
    {
        let ghost rv0 = rest@;
        let c = rest.remove(0);
        proof {
            assert(rest@ =~= rv0.skip(1));
            assert(rv0.map_values(|t: QuestChest| t@)[0] == nv.skip(i as int)[0]);
            assert(c@ == nv[i as int]);
            assert forall|k: int| 0 <= k < rest@.len() implies rest@.map_values(
                |t: QuestChest| t@,
            )[k] == #[trigger] nv.skip(i + 1 as int)[k] by {
                assert(rv0.map_values(|t: QuestChest| t@)[k + 1] == nv.skip(i as int)[k + 1]);
            }
            assert(rest@.map_values(|t: QuestChest| t@) =~= nv.skip(i + 1 as int));
            assert(nv.take(i + 1 as int) =~= nv.take(i as int) + seq![c@]);
            crate::bytes::lemma_filter_snoc(
                nv.take(i as int),
                c@,
                |v: QuestChestV| floors@.contains(v.z),
            );
        }
        let ghost out0 = out@.map_values(|t: QuestChest| t@);
        if crate::monsters::floor_listed(floors, c.z) {
            out.push(c);
            proof {
                assert(out@.map_values(|t: QuestChest| t@) =~= out0.push(out@.last()@));
            }
        }
        i = i + 1;
    }
    proof {
        assert(nv.take(i as int) =~= nv);
    }
    out
}

} // verus!
