//! Floor selection and the global sector bounding box shared by every
//! floor of one build.

use vstd::prelude::*;
use crate::bytes::{parse_u8, spec_parse_u8, spec_split, split_all};
use crate::sectors::{parse_sector_coords, spec_parse_sector_coords};

verus! {

/// Errors of the floor-range reader: the text is not a floor number or
/// a dash-separated range of two.
#[derive(Debug, PartialEq, Eq, Structural, Clone, Copy)]
pub enum FloorRangeError {
    BadRange,
}

/// The floors named by a range argument: `a-b` is the inclusive range,
/// anything else must be one floor number.
pub open spec fn spec_floor_range(s: Seq<u8>) -> Option<Seq<u8>> {
    let ps = spec_split(s, 45);
    if ps.len() == 2 {
        match spec_parse_u8(ps[0]) {
            None => None,
            Some(start) => match spec_parse_u8(ps[1]) {
                None => None,
                Some(end) => {
                    if start > end {
                        Some(Seq::empty())
                    } else {
                        Some(Seq::new((end - start + 1) as nat, |i: int| (start + i) as u8))
                    }
                },
            },
        }
    } else {
        match spec_parse_u8(s) {
            None => None,
            Some(f) => Some(seq![f]),
        }
    }
}

/// Reads a floor range argument such as `0-15` or `7`.
pub fn parse_floor_range(s: &Vec<u8>) -> (r: Result<Vec<u8>, FloorRangeError>)
    ensures
        match r {
            Ok(v) => spec_floor_range(s@) == Some(v@),
            Err(_) => spec_floor_range(s@) is None,
        },
{
    let ghost psv = spec_split(s@, 45);
    let ps = split_all(s, 45);
    if ps.len() == 2 {
        assert(ps@[0]@ == psv[0]);
        assert(ps@[1]@ == psv[1]);
        let start = match parse_u8(&ps[0]) {
            Some(v) => v,
            None => {
                return Err(FloorRangeError::BadRange);
            },
        };
        let end = match parse_u8(&ps[1]) {
            Some(v) => v,
            None => {
                return Err(FloorRangeError::BadRange);
            },
        };
        if start > end {
            let empty: Vec<u8> = Vec::new();
            proof {
                assert(empty@ =~= Seq::<u8>::empty());
            }
            return Ok(empty);
        }
        let mut out: Vec<u8> = Vec::new();
        let mut f: u8 = start;
        loop
            invariant
                start <= f <= end,
                out@.len() == f - start,
                forall|i: int| 0 <= i < out@.len() ==> out@[i] == (start + i) as u8,
                spec_floor_range(s@) == Some(
                    Seq::new((end - start + 1) as nat, |i: int| (start + i) as u8),
                ),
            decreases end - f,
        {
            out.push(f);
            if f == end {
                proof {
                    assert(out@ =~= Seq::new((end - start + 1) as nat, |i: int| (start + i) as u8));
                }
                return Ok(out);
            }
            f = f + 1;
        }
    } else {
        match parse_u8(s) {
            Some(v) => {
                let out: Vec<u8> = vec![v];
                proof {
                    assert(out@ =~= seq![v]);
                }
                Ok(out)
            },
            None => Err(FloorRangeError::BadRange),
        }
    }
}

/// The running sector bounding box over the file names seen so far.
#[derive(Clone, Copy, Debug, PartialEq, Eq, Structural)]
pub struct Bounds {
    pub min_x: u32,
    pub max_x: u32,
    pub min_y: u32,
    pub max_y: u32,
    pub found: bool,
}

pub open spec fn bounds_init() -> Bounds {
    Bounds { min_x: u32::MAX, max_x: 0, min_y: u32::MAX, max_y: 0, found: false }
}

/// One file name folded into the bounding box: only names of the
/// chosen floors count.
pub open spec fn bounds_step(st: Bounds, name: Seq<u8>, floors: Seq<u8>) -> Bounds {
    match spec_parse_sector_coords(name) {
        None => st,
        Some((x, y, z)) => {
            if floors.contains(z) {
                Bounds {
                    min_x: if x < st.min_x {
                        x
                    } else {
                        st.min_x
                    },
                    max_x: if x > st.max_x {
                        x
                    } else {
                        st.max_x
                    },
                    min_y: if y < st.min_y {
                        y
                    } else {
                        st.min_y
                    },
                    max_y: if y > st.max_y {
                        y
                    } else {
                        st.max_y
                    },
                    found: true,
                }
            } else {
                st
            }
        },
    }
}

pub open spec fn bounds_run(st: Bounds, names: Seq<Seq<u8>>, floors: Seq<u8>) -> Bounds
    decreases names.len(),
{
    if names.len() == 0 {
        st
    } else {
        bounds_step(bounds_run(st, names.drop_last(), floors), names.last(), floors)
    }
}

/// Errors of the bounds pass: no sector file of the chosen floors.
#[derive(Debug, PartialEq, Eq, Structural, Clone, Copy)]
pub enum BoundsError {
    NoSectors,
}

/// The one shared sector bounding box of a build: the minimum and
/// maximum sector coordinates over every file of every chosen floor.
/// Fails when no file matches.
pub fn calculate_global_bounds(names: &Vec<Vec<u8>>, floors: &Vec<u8>) -> (r: Result<
    (u32, u32, u32, u32),
    BoundsError,
>)
    ensures
        ({
            let st = bounds_run(bounds_init(), names@.map_values(|n: Vec<u8>| n@), floors@);
            match r {
                Ok(b) => st.found && b.0 == st.min_x && b.1 == st.max_x && b.2 == st.min_y && b.3
                    == st.max_y,
                Err(_) => !st.found,
            }
        }),
{
    let ghost nv = names@.map_values(|n: Vec<u8>| n@);
    let mut st = Bounds { min_x: u32::MAX, max_x: 0, min_y: u32::MAX, max_y: 0, found: false };
    let mut i: usize = 0;
    proof {
        assert(nv.take(0) =~= Seq::<Seq<u8>>::empty());
    }
    while i < names.len()
        invariant
            nv == names@.map_values(|n: Vec<u8>| n@),
            i <= names@.len(),
            st == bounds_run(bounds_init(), nv.take(i as int), floors@),
        decreases names@.len() - i,
    {
        assert(names@[i as int]@ == nv[i as int]);
        proof {
            assert(nv.take(i + 1 as int).drop_last() =~= nv.take(i as int));
            assert(nv.take(i + 1 as int).last() == nv[i as int]);
        }
        match parse_sector_coords(&names[i]) {
            None => {},
            Some((x, y, z)) => {
                if crate::monsters::floor_listed(floors, z) {
                    st = Bounds {
                        min_x: if x < st.min_x {
                            x
                        } else {
                            st.min_x
                        },
                        max_x: if x > st.max_x {
                            x
                        } else {
                            st.max_x
                        },
                        min_y: if y < st.min_y {
                            y
                        } else {
                            st.min_y
                        },
                        max_y: if y > st.max_y {
                            y
                        } else {
                            st.max_y
                        },
                        found: true,
                    };
                }
            },
        }
        i = i + 1;
    }
    proof {
        assert(nv.take(i as int) =~= nv);
    }
    if st.found {
        Ok((st.min_x, st.max_x, st.min_y, st.max_y))
    } else {
        Err(BoundsError::NoSectors)
    }
}

} // verus!
