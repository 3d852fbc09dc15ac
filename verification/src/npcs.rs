//! NPC locations, read from the NPC overview CSV.

use vstd::prelude::*;
use crate::bytes::{
    drop_back, drop_front, parse_i32, parse_u32, parse_u8, spec_parse_i32, spec_parse_u32,
    spec_parse_u8, spec_split, spec_splitn, spec_trim, splitn_all, trim, trim_edge_bytes,
};

verus! {

/// Mathematical image of an `NpcLocation`.
pub struct NpcLocationV {
    pub id: i32,
    pub file_name: Seq<u8>,
    pub npc_name: Seq<u8>,
    pub x: u32,
    pub y: u32,
    pub z: u8,
}

/// One NPC and where it stands.
#[derive(Debug, Clone)]
pub struct NpcLocation {
    pub id: i32,
    pub file_name: Vec<u8>,
    pub npc_name: Vec<u8>,
    pub x: u32,
    pub y: u32,
    pub z: u8,
}

impl View for NpcLocation {
    type V = NpcLocationV;

    open spec fn view(&self) -> NpcLocationV {
        NpcLocationV {
            id: self.id,
            file_name: self.file_name@,
            npc_name: self.npc_name@,
            x: self.x,
            y: self.y,
            z: self.z,
        }
    }
}

/// One CSV row: six comma-separated fields, commas allowed in the last;
/// a row that is empty, short, or fails a number is skipped.
pub open spec fn spec_npc_row(line: Seq<u8>) -> Option<NpcLocationV> {
    if line.len() == 0 {
        None
    } else {
        let ps = spec_splitn(line, 44, 6);
        if ps.len() < 6 {
            None
        } else {
            match spec_parse_i32(spec_trim(ps[0])) {
                None => None,
                Some(id) => {
                    let file_name = drop_back(drop_front(spec_trim(ps[1]), 34, 34), 34, 34);
                    let npc_name = drop_back(drop_front(spec_trim(ps[2]), 34, 34), 34, 34);
                    match spec_parse_u32(spec_trim(ps[3])) {
                        None => None,
                        Some(x) => match spec_parse_u32(spec_trim(ps[4])) {
                            None => None,
                            Some(y) => match spec_parse_u8(spec_trim(ps[5])) {
                                None => None,
                                Some(z) => Some(
                                    NpcLocationV { id, file_name, npc_name, x, y, z },
                                ),
                            },
                        },
                    }
                },
            }
        }
    }
}

/// Reads one CSV row.
pub fn parse_npc_row(line: &Vec<u8>) -> (r: Option<NpcLocation>)
    ensures
        match spec_npc_row(line@) {
            None => r is None,
            Some(v) => (r matches Some(n) && n@ == v),
        },
{
    if line.len() == 0 {
        return None;
    }
    let ghost psv = spec_splitn(line@, 44, 6);
    let ps = splitn_all(line, 44, 6);
    if ps.len() < 6 {
        return None;
    }
    assert(ps@[0]@ == psv[0]);
    assert(ps@[1]@ == psv[1]);
    assert(ps@[2]@ == psv[2]);
    assert(ps@[3]@ == psv[3]);
    assert(ps@[4]@ == psv[4]);
    assert(ps@[5]@ == psv[5]);
    let id = match parse_i32(&trim(&ps[0])) {
        Some(v) => v,
        None => {
            return None;
        },
    };
    let file_name = trim_edge_bytes(&trim(&ps[1]), 34, 34);
    let npc_name = trim_edge_bytes(&trim(&ps[2]), 34, 34);
    let x = match parse_u32(&trim(&ps[3])) {
        Some(v) => v,
        None => {
            return None;
        },
    };
    let y = match parse_u32(&trim(&ps[4])) {
        Some(v) => v,
        None => {
            return None;
        },
    };
    let z = match parse_u8(&trim(&ps[5])) {
        Some(v) => v,
        None => {
            return None;
        },
    };
    Some(NpcLocation { id, file_name, npc_name, x, y, z })
}

/// The rows of a line list, in order, bad rows skipped.
pub open spec fn spec_npc_rows(lines: Seq<Seq<u8>>) -> Seq<NpcLocationV>
    decreases lines.len(),
{
    if lines.len() == 0 {
        Seq::empty()
    } else {
        spec_npc_rows(lines.drop_last()) + (match spec_npc_row(lines.last()) {
            Some(v) => seq![v],
            None => Seq::empty(),
        })
    }
}

/// The NPC list of the whole CSV: every line after the header, in
/// order, rows that fail the grammar skipped.
pub open spec fn spec_parse_npc_csv(content: Seq<u8>) -> Seq<NpcLocationV> {
    spec_npc_rows(spec_split(content, 10).skip(1))
}

/// Parses the NPC overview CSV; the first line is the header.
pub fn parse_npc_csv(content: &Vec<u8>) -> (r: Vec<NpcLocation>)
    ensures
        r@.map_values(|n: NpcLocation| n@) == spec_parse_npc_csv(content@),
{
    let ghost lv = spec_split(content@, 10);
    let ghost sub = lv.skip(1);
    let lines = crate::bytes::split_all(content, 10);
    let mut out: Vec<NpcLocation> = Vec::new();
    let mut i: usize = 1;
    proof {
        assert(sub.take(0) =~= Seq::<Seq<u8>>::empty());
        assert(out@.map_values(|n: NpcLocation| n@) =~= Seq::<NpcLocationV>::empty());
    }
    while i < lines.len()
        invariant
            lv == lines@.map_values(|l: Vec<u8>| l@),
            lv == spec_split(content@, 10),
            sub == lv.skip(1),
            1 <= i <= lines@.len() || (lines@.len() == 0 && i == 1),
            out@.map_values(|n: NpcLocation| n@) == spec_npc_rows(sub.take(i - 1)),
        decreases lines@.len() - i,
    {
        assert(lines@[i as int]@ == lv[i as int]);
        proof {
            assert(sub.take(i as int).drop_last() =~= sub.take(i - 1));
            assert(sub.take(i as int).last() == lv[i as int]);
        }
        let ghost out0 = out@.map_values(|n: NpcLocation| n@);
        match parse_npc_row(&lines[i]) {
            Some(n) => {
                out.push(n);
                proof {
                    assert(out@.map_values(|nn: NpcLocation| nn@) =~= out0.push(out@.last()@));
                    assert(out0.push(out@.last()@) =~= out0 + seq![out@.last()@]);
                }
            },
            None => {
                proof {
                    assert(out0 + Seq::<NpcLocationV>::empty() =~= out0);
                }
            },
        }
        i = i + 1;
    }
    proof {
        if lines@.len() == 0 {
            assert(sub =~= Seq::<Seq<u8>>::empty());
            assert(sub.take(0) =~= sub);
        } else {
            assert(sub.take(i - 1) =~= sub);
        }
    }
    out
}

/// The NPCs that stand on one of the chosen floors, in order.
pub fn npcs_on_floors(npcs: Vec<NpcLocation>, floors: &Vec<u8>) -> (r: Vec<NpcLocation>)
    ensures
        r@.map_values(|n: NpcLocation| n@) == npcs@.map_values(|n: NpcLocation| n@).filter(
            |v: NpcLocationV| floors@.contains(v.z),
        ),
{
    let ghost nv = npcs@.map_values(|n: NpcLocation| n@);
    let mut out: Vec<NpcLocation> = Vec::new();
    let mut rest = npcs;
    let ghost total = rest@.len();
    let mut i: usize = 0;
    let initial_len = rest.len();
    proof {
        assert(nv.len() == initial_len);
        assert(nv.take(0) =~= Seq::<NpcLocationV>::empty());
        crate::bytes::lemma_filter_empty(|v: NpcLocationV| floors@.contains(v.z));
        assert(out@.map_values(|n: NpcLocation| n@) =~= Seq::<NpcLocationV>::empty());
        assert(rest@.map_values(|n: NpcLocation| n@) =~= nv.skip(0));
    }
    while rest.len() > 0
        invariant
            i + rest@.len() == nv.len(),
            nv.len() <= usize::MAX,
            rest@.map_values(|n: NpcLocation| n@) == nv.skip(i as int),
            out@.map_values(|n: NpcLocation| n@) == nv.take(i as int).filter(
                |v: NpcLocationV| floors@.contains(v.z),
            ),
        decreases rest@.len(),
    {
        let ghost rv0 = rest@;
        let n = rest.remove(0);
        proof {
            assert(rest@ =~= rv0.skip(1));
            assert(rv0.map_values(|t: NpcLocation| t@)[0] == nv.skip(i as int)[0]);
            assert(n@ == nv[i as int]);
            assert forall|k: int| 0 <= k < rest@.len() implies rest@.map_values(
                |t: NpcLocation| t@,
            )[k] == #[trigger] nv.skip(i + 1 as int)[k] by {
                assert(rv0.map_values(|t: NpcLocation| t@)[k + 1] == nv.skip(i as int)[k + 1]);
            }
            assert(rest@.map_values(|t: NpcLocation| t@) =~= nv.skip(i + 1 as int));
            assert(nv.take(i + 1 as int) =~= nv.take(i as int) + seq![n@]);
            crate::bytes::lemma_filter_snoc(
                nv.take(i as int),
                n@,
                |v: NpcLocationV| floors@.contains(v.z),
            );
        }
        let ghost out0 = out@.map_values(|t: NpcLocation| t@);
        if crate::monsters::floor_listed(floors, n.z) {
            out.push(n);
            proof {
                assert(out@.map_values(|t: NpcLocation| t@) =~= out0.push(out@.last()@));
            }
        }
        i = i + 1;
    }
    proof {
        assert(nv.take(i as int) =~= nv);
    }
    out
}

} // verus!
