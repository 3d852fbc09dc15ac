//! Monster spawn data: the spawn table of the world database and the
//! name records of the per-monster files.

use vstd::prelude::*;
use std::collections::HashMap;
use crate::bytes::{
    first_index, find_byte, parse_u32, parse_u8, slice_of, spec_parse_u32, spec_parse_u8,
    spec_split, spec_trim, split_all, trim, is_space, trim_front, lemma_trim_front_skip,
    spec_starts_with, starts_with, drop_front, drop_back, trim_edge_bytes,
};
use crate::sectors::{spec_first_space};

verus! {

broadcast use vstd::std_specs::hash::group_hash_axioms;

/// One spawn row of the monster database.
#[derive(Clone, Copy, Debug, PartialEq, Eq, Structural)]
pub struct MonsterSpawn {
    pub race: u32,
    pub x: u32,
    pub y: u32,
    pub z: u8,
    pub radius: u32,
    pub amount: u32,
    pub regen: u32,
}

/// The whitespace-separated tokens of a line, in order.
pub open spec fn spec_split_ws(s: Seq<u8>) -> Seq<Seq<u8>>
    decreases s.len(),
    via spec_split_ws_decreases
{
    let f = trim_front(s);
    if f.len() == 0 {
        Seq::empty()
    } else {
        seq![f.take(spec_first_space(f))] + spec_split_ws(f.skip(spec_first_space(f)))
    }
}

proof fn lemma_trim_front_shorter(s: Seq<u8>)
    ensures
        trim_front(s).len() <= s.len(),
        trim_front(s).len() > 0 ==> !is_space(trim_front(s)[0]),
    decreases s.len(),
{
    if s.len() > 0 && is_space(s[0]) {
        lemma_trim_front_shorter(s.skip(1));
    }
}

proof fn lemma_first_space_bounds(s: Seq<u8>)
    ensures
        0 <= spec_first_space(s) <= s.len(),
        s.len() > 0 && !is_space(s[0]) ==> spec_first_space(s) >= 1,
    decreases s.len(),
{
    if s.len() > 0 && !is_space(s[0]) {
        lemma_first_space_bounds(s.skip(1));
    }
}

#[via_fn]
proof fn spec_split_ws_decreases(s: Seq<u8>) {
    lemma_trim_front_shorter(s);
    lemma_first_space_bounds(trim_front(s));
}

/// Splits a line into its whitespace-separated tokens.
pub fn split_ws(s: &Vec<u8>) -> (r: Vec<Vec<u8>>)
    ensures
        r@.map_values(|t: Vec<u8>| t@) == spec_split_ws(s@),
{
    let mut done: Vec<Vec<u8>> = Vec::new();
    let mut i: usize = 0;
    proof {
        assert(s@.skip(0) =~= s@);
        assert(done@.map_values(|t: Vec<u8>| t@) =~= Seq::<Seq<u8>>::empty());
    }
    loop
        invariant
            i <= s@.len(),
            s@.len() == s.len(),
            spec_split_ws(s@) == done@.map_values(|t: Vec<u8>| t@) + spec_split_ws(
                s@.skip(i as int),
            ),
        decreases s@.len() - i,
    {
        let mut a: usize = i;
        while a < s.len() && crate::bytes::is_space_exec(s[a])
            invariant
                i <= a <= s@.len(),
                s@.len() == s.len(),
                forall|j: int| i <= j < a ==> is_space(#[trigger] s@[j]),
            decreases s@.len() - a,
        {
            a = a + 1;
        }
        proof {
            lemma_trim_front_skip(s@.skip(i as int), a - i);
            assert(s@.skip(i as int).skip(a - i) =~= s@.skip(a as int));
        }
        if a == s.len() {
            proof {
                assert(trim_front(s@.skip(i as int)) =~= Seq::<u8>::empty());
                assert(done@.map_values(|t: Vec<u8>| t@) + Seq::<Seq<u8>>::empty()
                    =~= done@.map_values(|t: Vec<u8>| t@));
            }
            return done;
        }
        let mut b: usize = a;
        while b < s.len() && !crate::bytes::is_space_exec(s[b])
            invariant
                a <= b <= s@.len(),
                s@.len() == s.len(),
                forall|j: int| a <= j < b ==> !is_space(#[trigger] s@[j]),
            decreases s@.len() - b,
        {
            b = b + 1;
        }
        let tok = slice_of(s, a, b);
        let ghost f = s@.skip(a as int);
        proof {
            crate::sectors::lemma_first_space_is(f, b - a);
            assert(f.take(b - a) =~= s@.subrange(a as int, b as int));
            assert(trim_front(s@.skip(i as int)) == f);
            assert(f.skip(b - a) =~= s@.skip(b as int));
        }
        let ghost done0 = done@.map_values(|t: Vec<u8>| t@);
        done.push(tok);
        proof {
            assert(done@.map_values(|t: Vec<u8>| t@) =~= done0.push(tok@));
            assert(done0.push(tok@) + spec_split_ws(s@.skip(b as int)) =~= done0 + (seq![tok@]
                + spec_split_ws(s@.skip(b as int))));
        }
        i = b;
    }
}

/// What one line of the spawn table means: nothing, the end marker, a
/// malformed row, or one spawn.
pub enum SpawnLine {
    Skip,
    Stop,
    Bad,
    Row(MonsterSpawn),
}

/// One line of the monster database: comments and blanks are skipped,
/// a lone `0` ends the table, a row of fewer than seven fields is
/// skipped, and a seven-field row must parse in every field.
pub open spec fn spec_spawn_line(raw: Seq<u8>) -> SpawnLine {
    let t0 = spec_trim(raw);
    if t0.len() == 0 || t0[0] == 35 {
        SpawnLine::Skip
    } else {
        let t = if first_index(t0, 35) < t0.len() {
            spec_trim(t0.take(first_index(t0, 35)))
        } else {
            t0
        };
        if t.len() == 0 {
            SpawnLine::Skip
        } else {
            let ps = spec_split_ws(t);
            if ps.len() < 7 {
                if ps.len() == 1 && ps[0] == seq![48u8] {
                    SpawnLine::Stop
                } else {
                    SpawnLine::Skip
                }
            } else {
                match spec_parse_u32(ps[0]) {
                    None => SpawnLine::Bad,
                    Some(race) => match spec_parse_u32(ps[1]) {
                        None => SpawnLine::Bad,
                        Some(x) => match spec_parse_u32(ps[2]) {
                            None => SpawnLine::Bad,
                            Some(y) => match spec_parse_u8(ps[3]) {
                                None => SpawnLine::Bad,
                                Some(z) => match spec_parse_u32(ps[4]) {
                                    None => SpawnLine::Bad,
                                    Some(radius) => match spec_parse_u32(ps[5]) {
                                        None => SpawnLine::Bad,
                                        Some(amount) => match spec_parse_u32(ps[6]) {
                                            None => SpawnLine::Bad,
                                            Some(regen) => SpawnLine::Row(
                                                MonsterSpawn { race, x, y, z, radius, amount, regen },
                                            ),
                                        },
                                    },
                                },
                            },
                        },
                    },
                }
            }
        }
    }
}

/// Reads one line of the spawn table.
pub fn parse_spawn_line(raw: &Vec<u8>) -> (r: SpawnLine)
    ensures
        r == spec_spawn_line(raw@),
{
    let t0 = trim(raw);
    if t0.len() == 0 || t0[0] == 35 {
        return SpawnLine::Skip;
    }
    let h = find_byte(&t0, 35);
    let t = if h < t0.len() {
        let cut = slice_of(&t0, 0, h);
        proof {
            assert(cut@ =~= t0@.take(h as int));
        }
        trim(&cut)
    } else {
        t0
    };
    if t.len() == 0 {
        return SpawnLine::Skip;
    }
    let ghost psv = spec_split_ws(t@);
    let ps = split_ws(&t);
    if ps.len() < 7 {
        if ps.len() == 1 {
            assert(ps@[0]@ == psv[0]);
            let zero: Vec<u8> = vec![48u8];
            proof {
                assert(zero@ =~= seq![48u8]);
            }
            if crate::bytes::bytes_eq(&ps[0], &zero) {
                return SpawnLine::Stop;
            }
        }
        return SpawnLine::Skip;
    }
    assert(ps@[0]@ == psv[0]);
    assert(ps@[1]@ == psv[1]);
    assert(ps@[2]@ == psv[2]);
    assert(ps@[3]@ == psv[3]);
    assert(ps@[4]@ == psv[4]);
    assert(ps@[5]@ == psv[5]);
    assert(ps@[6]@ == psv[6]);
    let race = match parse_u32(&ps[0]) {
        Some(v) => v,
        None => {
            return SpawnLine::Bad;
        },
    };
    let x = match parse_u32(&ps[1]) {
        Some(v) => v,
        None => {
            return SpawnLine::Bad;
        },
    };
    let y = match parse_u32(&ps[2]) {
        Some(v) => v,
        None => {
            return SpawnLine::Bad;
        },
    };
    let z = match parse_u8(&ps[3]) {
        Some(v) => v,
        None => {
            return SpawnLine::Bad;
        },
    };
    let radius = match parse_u32(&ps[4]) {
        Some(v) => v,
        None => {
            return SpawnLine::Bad;
        },
    };
    let amount = match parse_u32(&ps[5]) {
        Some(v) => v,
        None => {
            return SpawnLine::Bad;
        },
    };
    let regen = match parse_u32(&ps[6]) {
        Some(v) => v,
        None => {
            return SpawnLine::Bad;
        },
    };
    SpawnLine::Row(MonsterSpawn { race, x, y, z, radius, amount, regen })
}

/// The spawn rows of the whole table, line by line: `None` when a
/// seven-field row fails to parse; reading ends at the `0` marker.
pub open spec fn spec_monster_db(lines: Seq<Seq<u8>>) -> Option<Seq<MonsterSpawn>>
    decreases lines.len(),
{
    if lines.len() == 0 {
        Some(Seq::empty())
    } else {
        match spec_spawn_line(lines[0]) {
            SpawnLine::Bad => None,
            SpawnLine::Stop => Some(Seq::empty()),
            SpawnLine::Skip => spec_monster_db(lines.skip(1)),
            SpawnLine::Row(s) => match spec_monster_db(lines.skip(1)) {
                None => None,
                Some(r) => Some(seq![s] + r),
            },
        }
    }
}

/// Appends a prefix to an optional row list.
pub open spec fn with_prefix(pre: Seq<MonsterSpawn>, o: Option<Seq<MonsterSpawn>>) -> Option<
    Seq<MonsterSpawn>,
> {
    match o {
        None => None,
        Some(r) => Some(pre + r),
    }
}

/// Errors of the spawn-table loader: a seven-field row with an
/// unreadable number.
#[derive(Debug, PartialEq, Eq, Structural, Clone, Copy)]
pub enum SpawnDbError {
    BadRow,
}

/// Parses the monster database. Comment and malformed short lines are
/// skipped, a lone `0` line ends the table, and a seven-field row that
/// does not parse fails the load.
pub fn parse_monster_db(content: &Vec<u8>) -> (r: Result<Vec<MonsterSpawn>, SpawnDbError>)
    ensures
        match r {
            Ok(v) => spec_monster_db(spec_split(content@, 10)) == Some(v@),
            Err(_) => spec_monster_db(spec_split(content@, 10)) is None,
        },
{
    let ghost lv = spec_split(content@, 10);
    let lines = split_all(content, 10);
    let mut out: Vec<MonsterSpawn> = Vec::new();
    let mut i: usize = 0;
    proof {
        assert(lv.skip(0) =~= lv);
        if spec_monster_db(lv) is Some {
            let r = spec_monster_db(lv)->Some_0;
            assert(Seq::<MonsterSpawn>::empty() + r =~= r);
        }
    }
    while i < lines.len()
        invariant
            lv == lines@.map_values(|l: Vec<u8>| l@),
            lv == spec_split(content@, 10),
            i <= lines@.len(),
            spec_monster_db(lv) == with_prefix(out@, spec_monster_db(lv.skip(i as int))),
        decreases lines@.len() - i,
    {
        assert(lines@[i as int]@ == lv[i as int]);
        proof {
            assert(lv.skip(i as int)[0] == lv[i as int]);
            assert(lv.skip(i as int).skip(1) =~= lv.skip(i + 1 as int));
        }
        match parse_spawn_line(&lines[i]) {
            SpawnLine::Bad => {
                return Err(SpawnDbError::BadRow);
            },
            SpawnLine::Stop => {
                proof {
                    assert(out@ + Seq::<MonsterSpawn>::empty() =~= out@);
                }
                return Ok(out);
            },
            SpawnLine::Skip => {},
            SpawnLine::Row(s) => {
                let ghost out0 = out@;
                out.push(s);
                proof {
                    if spec_monster_db(lv.skip(i + 1 as int)) is Some {
                        let rest = spec_monster_db(lv.skip(i + 1 as int))->Some_0;
                        assert(out0 + (seq![s] + rest) =~= out@ + rest);
                    }
                }
            },
        }
        i = i + 1;
    }
    proof {
        assert(lv.skip(i as int) =~= Seq::<Seq<u8>>::empty());
        assert(out@ + Seq::<MonsterSpawn>::empty() =~= out@);
    }
    Ok(out)
}

/// The race number and name fields gathered from one monster file, in
/// line order; gathering stops once both are present.
pub open spec fn mon_step(st: (Option<u32>, Option<Seq<u8>>), line: Seq<u8>) -> (
    Option<u32>,
    Option<Seq<u8>>,
) {
    let t = spec_trim(line);
    if spec_starts_with(t, spec_key_race_number()) {
        let eq = spec_split(t, 61);
        if eq.len() >= 2 {
            (spec_parse_u32(spec_trim(eq[1])), st.1)
        } else {
            st
        }
    } else if spec_starts_with(t, crate::objects::spec_key_name()) {
        let eq = spec_split(t, 61);
        if eq.len() >= 2 {
            (st.0, Some(drop_back(drop_front(spec_trim(eq[1]), 34, 34), 34, 34)))
        } else {
            st
        }
    } else {
        st
    }
}

/// The view of an optional byte string.
pub open spec fn opt_view(o: Option<Vec<u8>>) -> Option<Seq<u8>> {
    match o {
        Some(n) => Some(n@),
        None => None,
    }
}

pub open spec fn mon_run(st: (Option<u32>, Option<Seq<u8>>), lines: Seq<Seq<u8>>) -> (
    Option<u32>,
    Option<Seq<u8>>,
)
    decreases lines.len(),
{
    if lines.len() == 0 || (st.0 is Some && st.1 is Some) {
        st
    } else {
        mon_run(mon_step(st, lines[0]), lines.skip(1))
    }
}

pub open spec fn spec_key_race_number() -> Seq<u8> {
    seq![82u8, 97, 99, 101, 78, 117, 109, 98, 101, 114]
}

/// The byte string `RaceNumber`.
pub fn key_race_number() -> (v: Vec<u8>)
    ensures
        v@ == spec_key_race_number(),
{
    let v: Vec<u8> = vec![82u8, 97, 99, 101, 78, 117, 109, 98, 101, 114];
    proof {
        assert(v@ =~= spec_key_race_number());
    }
    v
}

/// The race id and display name of one monster file, when both fields
/// are present and readable.
pub open spec fn spec_mon_entry(content: Seq<u8>) -> Option<(u32, Seq<u8>)> {
    let st = mon_run((None, None), spec_split(content, 10));
    match st.0 {
        None => None,
        Some(race) => match st.1 {
            None => None,
            Some(name) => Some((race, name)),
        },
    }
}

/// Reads the race id and name out of one monster file.
pub fn parse_mon_entry(content: &Vec<u8>) -> (r: Option<(u32, Vec<u8>)>)
    ensures
        match spec_mon_entry(content@) {
            None => r is None,
            Some((race, name)) => (r matches Some(t) && t.0 == race && t.1@ == name),
        },
{
    let ghost lv = spec_split(content@, 10);
    let lines = split_all(content, 10);
    let race_key = key_race_number();
    let name_key = crate::objects::key_name();
    let mut race: Option<u32> = None;
    let mut name: Option<Vec<u8>> = None;
    let mut i: usize = 0;
    proof {
        assert(lv.skip(0) =~= lv);
    }
    while i < lines.len() && !(race.is_some() && name.is_some())
        invariant
            lv == lines@.map_values(|l: Vec<u8>| l@),
            race_key@ == spec_key_race_number(),
            name_key@ == crate::objects::spec_key_name(),
            i <= lines@.len(),
            mon_run((None, None), lv) == mon_run((race, opt_view(name)), lv.skip(i as int)),
        decreases lines@.len() - i,
    {
        assert(lines@[i as int]@ == lv[i as int]);
        proof {
            assert(lv.skip(i as int)[0] == lv[i as int]);
            assert(lv.skip(i as int).skip(1) =~= lv.skip(i + 1 as int));
        }
        let t = trim(&lines[i]);
        if starts_with(&t, &race_key) {
            let ghost eqv = spec_split(t@, 61);
            let eq = split_all(&t, 61);
            if eq.len() >= 2 {
                assert(eq@[1]@ == eqv[1]);
                race = parse_u32(&trim(&eq[1]));
            }
        } else if starts_with(&t, &name_key) {
            let ghost eqv = spec_split(t@, 61);
            let eq = split_all(&t, 61);
            if eq.len() >= 2 {
                assert(eq@[1]@ == eqv[1]);
                name = Some(trim_edge_bytes(&trim(&eq[1]), 34, 34));
            }
        }
        i = i + 1;
    }
    match (race, name) {
        (Some(r0), Some(n0)) => Some((r0, n0)),
        _ => None,
    }
}

/// The name table of a set of monster files: each file's entry in
/// order, a later file superseding an earlier race id.
pub open spec fn spec_mon_names(files: Seq<Seq<u8>>) -> Map<u32, Seq<u8>>
    decreases files.len(),
{
    if files.len() == 0 {
        Map::empty()
    } else {
        let m = spec_mon_names(files.drop_last());
        match spec_mon_entry(files.last()) {
            None => m,
            Some((race, name)) => m.insert(race, name),
        }
    }
}

/// Collects the monster names of a list of file contents.
pub fn parse_monster_names(files: &Vec<Vec<u8>>) -> (m: HashMap<u32, Vec<u8>>)
    ensures
        m@.dom() =~= spec_mon_names(files@.map_values(|f: Vec<u8>| f@)).dom(),
        forall|race: u32| #[trigger]
            m@.contains_key(race) ==> m@[race]@ == spec_mon_names(
                files@.map_values(|f: Vec<u8>| f@),
            )[race],
{
    let ghost fv = files@.map_values(|f: Vec<u8>| f@);
    let mut m: HashMap<u32, Vec<u8>> = HashMap::new();
    let mut i: usize = 0;
    proof {
        assert(fv.take(0) =~= Seq::<Seq<u8>>::empty());
    }
    while i < files.len()
        invariant
            fv == files@.map_values(|f: Vec<u8>| f@),
            i <= files@.len(),
            m@.dom() =~= spec_mon_names(fv.take(i as int)).dom(),
            forall|race: u32| #[trigger]
                m@.contains_key(race) ==> m@[race]@ == spec_mon_names(fv.take(i as int))[race],
        decreases files@.len() - i,
    {
        assert(files@[i as int]@ == fv[i as int]);
        proof {
            assert(fv.take(i + 1 as int).drop_last() =~= fv.take(i as int));
            assert(fv.take(i + 1 as int).last() == fv[i as int]);
        }
        match parse_mon_entry(&files[i]) {
            Some((race, name)) => {
                m.insert(race, name);
            },
            None => {},
        }
        i = i + 1;
    }
    proof {
        assert(fv.take(i as int) =~= fv);
    }
    m
}

/// The spawns that lie on one of the chosen floors, in order.
pub fn spawns_on_floors(spawns: &Vec<MonsterSpawn>, floors: &Vec<u8>) -> (r: Vec<MonsterSpawn>)
    ensures
        r@ == spawns@.filter(|s: MonsterSpawn| floors@.contains(s.z)),
{
    let mut out: Vec<MonsterSpawn> = Vec::new();
    let mut i: usize = 0;
    proof {
        assert(spawns@.take(0) =~= Seq::<MonsterSpawn>::empty());
        crate::bytes::lemma_filter_empty(|s: MonsterSpawn| floors@.contains(s.z));
    }
    while i < spawns.len()
        invariant
            i <= spawns@.len(),
            out@ == spawns@.take(i as int).filter(|s: MonsterSpawn| floors@.contains(s.z)),
        decreases spawns@.len() - i,
    {
        let s = spawns[i];
        proof {
            assert(spawns@.take(i + 1 as int) =~= spawns@.take(i as int) + seq![s]);
            crate::bytes::lemma_filter_snoc(
                spawns@.take(i as int),
                s,
                |t: MonsterSpawn| floors@.contains(t.z),
            );
        }
        if floor_listed(floors, s.z) {
            out.push(s);
        }
        i = i + 1;
    }
    proof {
        assert(spawns@.take(i as int) =~= spawns@);
    }
    out
}

/// Whether a floor is in the chosen list.
pub fn floor_listed(floors: &Vec<u8>, z: u8) -> (r: bool)
    ensures
        r == floors@.contains(z),
{
    let mut i: usize = 0;
    while i < floors.len()
        invariant
            i <= floors@.len(),
            forall|j: int| 0 <= j < i ==> floors@[j] != z,
        decreases floors@.len() - i,
    {
        if floors[i] == z {
            return true;
        }
        i = i + 1;
    }
    false
}

} // verus!
