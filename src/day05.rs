//! Seeds through a chain of almanac range maps to their locations.

use vstd::prelude::*;
use vstd::string::{StrSliceExecFns, StringSliceAdditionalSpecFns};
use crate::text::{
    bytes_view, lines, parse_unsigned, split_by, split_lines, split_on, split_once,
    split_once_at, split_words, unsigned_value, words,
};

verus! {

/// `"\n\n"`, between the sections of an almanac.
pub open spec fn section_sep() -> Seq<u8> {
    seq![10u8, 10]
}

/// `": "`, after the seeds label.
pub open spec fn label_sep() -> Seq<u8> {
    seq![58u8, 32]
}

/// The `u64` values among words; other words are skipped.
pub open spec fn u64_values(ws: Seq<Seq<u8>>) -> Seq<int>
    decreases ws.len(),
{
    if ws.len() == 0 {
        Seq::empty()
    } else {
        let rest = u64_values(ws.drop_last());
        match unsigned_value(ws.last()) {
            Some(v) => if v <= u64::MAX {
                rest.push(v)
            } else {
                rest
            },
            None => rest,
        }
    }
}

/// One range of a map: destination start, source start, length; `None`
/// for a line with fewer than three numbers.
pub open spec fn range_line(l: Seq<u8>) -> Option<(int, int, int)> {
    let ns = u64_values(words(l));
    if ns.len() >= 3 {
        Some((ns[0], ns[1], ns[2]))
    } else {
        None
    }
}

/// The ranges of the lines of a map.
pub open spec fn ranges(ls: Seq<Seq<u8>>) -> Seq<(int, int, int)>
    decreases ls.len(),
{
    if ls.len() == 0 {
        Seq::empty()
    } else {
        match range_line(ls.last()) {
            Some(r) => ranges(ls.drop_last()).push(r),
            None => ranges(ls.drop_last()),
        }
    }
}

/// The ranges of a map section, below its title line.
pub open spec fn section_ranges(sec: Seq<u8>) -> Seq<(int, int, int)> {
    let ls = lines(sec);
    if ls.len() == 0 {
        Seq::empty()
    } else {
        ranges(ls.drop_first())
    }
}

/// Where a map sends `s`: by the first range whose source covers it, or
/// unchanged.
pub open spec fn apply(rs: Seq<(int, int, int)>, s: int) -> int
    decreases rs.len(),
{
    if rs.len() == 0 {
        s
    } else {
        let (d, src, len) = rs[0];
        if src <= s && s - src < len {
            s - src + d
        } else {
            apply(rs.drop_first(), s)
        }
    }
}

/// Where the maps send `s`, applied in order.
pub open spec fn locate(maps: Seq<Seq<(int, int, int)>>, s: int) -> int
    decreases maps.len(),
{
    if maps.len() == 0 {
        s
    } else {
        apply(maps.last(), locate(maps.drop_last(), s))
    }
}

/// The seeds, listed after the label of the first section.
pub open spec fn seeds_of(b: Seq<u8>) -> Option<Seq<int>> {
    match split_once(split_on(b, section_sep())[0], label_sep()) {
        Some((_, rest)) => Some(u64_values(words(rest))),
        None => None,
    }
}

/// The maps, one per section after the first.
pub open spec fn maps_of(b: Seq<u8>) -> Seq<Seq<(int, int, int)>> {
    let secs = split_on(b, section_sep());
    Seq::new((secs.len() - 1) as nat, |i: int| section_ranges(secs[i + 1]))
}

/// Least location of the first `n` seeds; `None` when `n` is 0.
pub open spec fn lowest(maps: Seq<Seq<(int, int, int)>>, seeds: Seq<int>, n: int) -> Option<int>
    decreases n,
{
    if n <= 0 {
        None
    } else {
        let l = locate(maps, seeds[n - 1]);
        match lowest(maps, seeds, n - 1) {
            Some(m) => Some(
                if l < m {
                    l
                } else {
                    m
                },
            ),
            None => Some(l),
        }
    }
}

/// The `u64` values among the words of a text.
fn numbers_in(text: &Vec<u8>) -> (r: Vec<u64>)
    ensures
        r@.len() == u64_values(words(text@)).len(),
        forall|i: int| 0 <= i < r@.len() ==> #[trigger] r@[i] == u64_values(words(text@))[i],
{
    let ws = split_words(text.as_slice());
    let ghost wv = bytes_view(ws@);
    let mut r: Vec<u64> = Vec::new();
    let mut k: usize = 0;
    assert(wv.take(0) =~= Seq::<Seq<u8>>::empty());
    while k < ws.len()
        invariant
            wv == bytes_view(ws@),
            wv == words(text@),
            k <= wv.len(),
            r@.len() == u64_values(wv.take(k as int)).len(),
            forall|i: int| 0 <= i < r@.len() ==> #[trigger] r@[i] == u64_values(wv.take(k as int))[i],
        decreases wv.len() - k,
    {
        proof {
            assert(wv.take(k + 1).drop_last() =~= wv.take(k as int));
            assert(wv.take(k + 1).last() == wv[k as int]);
            assert(wv[k as int] == ws@[k as int]@);
        }
        let ghost before = r@;
        match parse_unsigned(&ws[k], 0xFFFF_FFFF_FFFF_FFFF) {
            Some(v) => {
                r.push(v);
                proof {
                    assert forall|i: int| 0 <= i < r@.len() implies #[trigger] r@[i]
                        == u64_values(wv.take(k + 1))[i] by {
                        if i < before.len() {
                            assert(r@[i] == before[i]);
                        }
                    }
                }
            },
            None => {},
        }
        k = k + 1;
    }
    assert(wv.take(wv.len() as int) =~= wv);
    r
}

/// The values of a vector of ranges.
pub open spec fn ranges_view(v: Seq<(u64, u64, u64)>) -> Seq<(int, int, int)> {
    Seq::new(v.len(), |i: int| (v[i].0 as int, v[i].1 as int, v[i].2 as int))
}

/// The ranges of one map section.
fn read_section(sec: &Vec<u8>) -> (r: Vec<(u64, u64, u64)>)
    ensures
        ranges_view(r@) == section_ranges(sec@),
{
    let ls = split_lines(sec.as_slice());
    let ghost lv = bytes_view(ls@);
    let mut r: Vec<(u64, u64, u64)> = Vec::new();
    if ls.len() == 0 {
        assert(ranges_view(r@) =~= Seq::<(int, int, int)>::empty());
        return r;
    }
    let ghost body = lv.drop_first();
    let mut k: usize = 1;
    assert(body.take(0) =~= Seq::<Seq<u8>>::empty());
    assert(ranges_view(r@) =~= Seq::<(int, int, int)>::empty());
    while k < ls.len()
        invariant
            lv == bytes_view(ls@),
            lv == lines(sec@),
            lv.len() >= 1,
            body == lv.drop_first(),
            1 <= k <= lv.len(),
            ranges_view(r@) == ranges(body.take(k - 1)),
        decreases lv.len() - k,
    {
        proof {
            assert(body.take(k as int).drop_last() =~= body.take(k - 1));
            assert(body.take(k as int).last() == lv[k as int]);
            assert(lv[k as int] == ls@[k as int]@);
        }
        let ns = numbers_in(&ls[k]);
        let ghost before = ranges_view(r@);
        if ns.len() >= 3 {
            r.push((ns[0], ns[1], ns[2]));
            proof {
                assert(ranges_view(r@) =~= before.push((ns@[0] as int, ns@[1] as int, ns@[2] as int)));
            }
        }
        k = k + 1;
    }
    assert(body.take(k - 1) =~= body);
    r
}

/// Where one map sends `s`.
fn apply_map(rs: &Vec<(u64, u64, u64)>, s: u128) -> (r: u128)
    requires
        s <= u128::MAX - u64::MAX,
    ensures
        r == apply(ranges_view(rs@), s as int),
        r <= s + 0xFFFF_FFFF_FFFF_FFFF,
{
    let ghost rv = ranges_view(rs@);
    let mut k: usize = 0;
    assert(rv.subrange(0, rv.len() as int) =~= rv);
    while k < rs.len()
        invariant
            rv == ranges_view(rs@),
            k <= rv.len(),
            s <= u128::MAX - u64::MAX,
            apply(rv, s as int) == apply(rv.subrange(k as int, rv.len() as int), s as int),
        decreases rv.len() - k,
    {
        let (d, src, len) = rs[k];
        proof {
            let rest = rv.subrange(k as int, rv.len() as int);
            assert(rest[0] == (d as int, src as int, len as int));
            assert(rest.drop_first() =~= rv.subrange(k + 1, rv.len() as int));
        }
        if src as u128 <= s && s - (src as u128) < len as u128 {
            return s - (src as u128) + (d as u128);
        }
        k = k + 1;
    }
    assert(rv.subrange(k as int, rv.len() as int) =~= Seq::<(int, int, int)>::empty());
    s
}

/// The ranges of a vector of maps.
pub open spec fn maps_view(v: Seq<Vec<(u64, u64, u64)>>) -> Seq<Seq<(int, int, int)>> {
    Seq::new(v.len(), |i: int| ranges_view(v[i]@))
}

/// The location of the seed at the end of every map, computed in `u128`.
fn locate_seed(maps: &Vec<Vec<(u64, u64, u64)>>, seed: u64) -> (r: u128)
    requires
        maps@.len() <= 0xFFFF_FFFF_FFFF_FFFF,
    ensures
        r == locate(maps_view(maps@), seed as int),
{
    let ghost mv = maps_view(maps@);
    let mut s: u128 = seed as u128;
    let mut k: usize = 0;
    assert(mv.take(0) =~= Seq::<Seq<(int, int, int)>>::empty());
    while k < maps.len()
        invariant
            mv == maps_view(maps@),
            k <= mv.len(),
            mv.len() <= 0xFFFF_FFFF_FFFF_FFFF,
            s == locate(mv.take(k as int), seed as int),
            s <= (k + 1) * 0x1_0000_0000_0000_0000,
        decreases mv.len() - k,
    {
        proof {
            assert(mv.take(k + 1).drop_last() =~= mv.take(k as int));
            assert(mv.take(k + 1).last() == mv[k as int]);
            assert(mv[k as int] == ranges_view(maps@[k as int]@));
            assert((k + 1) * 0x1_0000_0000_0000_0000 <= 0xFFFF_FFFF_FFFF_FFFF * 0x1_0000_0000_0000_0000)
                by (nonlinear_arith)
                requires
                    k < 0xFFFF_FFFF_FFFF_FFFF,
            ;
        }
        s = apply_map(&maps[k], s);
        proof {
            assert((k + 2) * 0x1_0000_0000_0000_0000 == (k + 1) * 0x1_0000_0000_0000_0000
                + 0x1_0000_0000_0000_0000) by (nonlinear_arith);
        }
        k = k + 1;
    }
    assert(mv.take(mv.len() as int) =~= mv);
    s
}

/// Least location any seed reaches through the maps, truncated to its low
/// 32 bits as the answer format asks; `None` without a seeds label or
/// without seeds.
pub fn part_one(input: &str) -> (r: Option<u32>)
    ensures
        r == match seeds_of(input.spec_bytes()) {
            Some(seeds) => match lowest(maps_of(input.spec_bytes()), seeds, seeds.len() as int) {
                Some(m) => Some((m % 0x1_0000_0000) as u32),
                None => None::<u32>,
            },
            None => None::<u32>,
        },
{
    let text = input.as_bytes_vec();
    let ghost bs = input.spec_bytes();
    let sep: Vec<u8> = vec![10u8, 10];
    let colon: Vec<u8> = vec![58u8, 32];
    assert(sep@ =~= section_sep());
    assert(colon@ =~= label_sep());
    let secs = split_by(&text, &sep);
    let ghost sv = bytes_view(secs@);
    proof {
        assert(sv == split_on(bs, section_sep()));
        assert(sv.len() >= 1);
        assert(sv[0] == secs@[0]@);
    }
    let rest = match split_once_at(&secs[0], &colon) {
        Some((_, rest)) => rest,
        None => return None,
    };
    let seeds = numbers_in(&rest);
    let ghost sd = u64_values(words(rest@));
    let mut maps: Vec<Vec<(u64, u64, u64)>> = Vec::new();
    let mut k: usize = 1;
    assert(maps_view(maps@) =~= Seq::new(0, |i: int| section_ranges(sv[i + 1])));
    while k < secs.len()
        invariant
            sv == bytes_view(secs@),
            1 <= k <= sv.len(),
            maps_view(maps@) =~= Seq::new((k - 1) as nat, |i: int| section_ranges(sv[i + 1])),
        decreases sv.len() - k,
    {
        proof {
            assert(sv[k as int] == secs@[k as int]@);
        }
        let m = read_section(&secs[k]);
        let ghost before = maps_view(maps@);
        maps.push(m);
        proof {
            assert(maps_view(maps@) =~= before.push(section_ranges(sv[k as int])));
        }
        k = k + 1;
    }
    let ghost mv = maps_view(maps@);
    assert(mv =~= maps_of(bs));
    let n_maps = maps.len();
    let mut best: Option<u128> = None;
    let mut i: usize = 0;
    while i < seeds.len()
        invariant
            mv == maps_view(maps@),
            maps@.len() == n_maps,
            seeds@.len() == sd.len(),
            forall|j: int| 0 <= j < seeds@.len() ==> #[trigger] seeds@[j] == sd[j],
            i <= seeds@.len(),
            match best {
                Some(m) => lowest(mv, sd, i as int) == Some(m as int),
                None => lowest(mv, sd, i as int) is None,
            },
        decreases seeds@.len() - i,
    {
        let l = locate_seed(&maps, seeds[i]);
        best = match best {
            Some(m) => if l < m {
                Some(l)
            } else {
                Some(m)
            },
            None => Some(l),
        };
        i = i + 1;
    }
    match best {
        Some(m) => Some((m % 0x1_0000_0000) as u32),
        None => None,
    }
}

} // verus!
