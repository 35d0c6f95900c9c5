//! Lagoon dug from hex-coded instructions: cubic metres it holds.

use vstd::prelude::*;
use vstd::string::StringSliceAdditionalSpecFns;
use crate::text::{bytes_view, lines, split_lines, split_words, words};

verus! {

/// Most steps a plan may have; beyond it the area could pass `i128`.
pub const MAX_STEPS: usize = 0x1000_0000;

/// Value of a hexadecimal digit.
pub open spec fn hex_value(c: u8) -> Option<int> {
    if 48 <= c <= 57 {
        Some(c - 48)
    } else if 97 <= c <= 102 {
        Some(c - 87)
    } else if 65 <= c <= 70 {
        Some(c - 55)
    } else {
        None
    }
}

/// The hex digit at position `k` of `w`, if there is one.
pub open spec fn hex_at(w: Seq<u8>, k: int) -> Option<int> {
    if 0 <= k < w.len() {
        hex_value(w[k])
    } else {
        None
    }
}

/// One instruction, read from the colour code `(#ddddde)` in its third
/// word: column step, row step and distance; the five digits `d` give the
/// distance and `e` the direction (0 right, 1 down, 2 left, 3 up).
pub open spec fn step_of(l: Seq<u8>) -> Option<(int, int, int)> {
    let ws = words(l);
    if ws.len() < 3 {
        None
    } else {
        let w = ws[2];
        match (hex_at(w, 2), hex_at(w, 3), hex_at(w, 4), hex_at(w, 5), hex_at(w, 6), hex_at(w, 7)) {
            (Some(a), Some(b), Some(c), Some(d), Some(e), Some(dir)) => {
                let dist = a * 65536 + b * 4096 + c * 256 + d * 16 + e;
                if dir == 0 {
                    Some((1, 0, dist))
                } else if dir == 1 {
                    Some((0, 1, dist))
                } else if dir == 2 {
                    Some((-1, 0, dist))
                } else if dir == 3 {
                    Some((0, -1, dist))
                } else {
                    None
                }
            },
            _ => None,
        }
    }
}

/// The instructions of a plan; `None` if a line is not one.
pub open spec fn plan_of(ls: Seq<Seq<u8>>) -> Option<Seq<(int, int, int)>>
    decreases ls.len(),
{
    if ls.len() == 0 {
        Some(Seq::empty())
    } else {
        match (plan_of(ls.drop_last()), step_of(ls.last())) {
            (Some(p), Some(s)) => Some(p.push(s)),
            _ => None,
        }
    }
}

/// Corner reached after the first `k` instructions, from (0, 0).
pub open spec fn corner(steps: Seq<(int, int, int)>, k: int) -> (int, int)
    decreases k,
{
    if k <= 0 {
        (0, 0)
    } else {
        let p = corner(steps, k - 1);
        let (dx, dy, n) = steps[k - 1];
        (p.0 + dx * n, p.1 + dy * n)
    }
}

/// Twice the signed area swept by the first `k` edges (the shoelace sum).
pub open spec fn twice_area(steps: Seq<(int, int, int)>, k: int) -> int
    decreases k,
{
    if k <= 0 {
        0
    } else {
        let a = corner(steps, k - 1);
        let b = corner(steps, k);
        twice_area(steps, k - 1) + a.0 * b.1 - b.0 * a.1
    }
}

/// Length of the first `k` edges.
pub open spec fn perimeter(steps: Seq<(int, int, int)>, k: int) -> int
    decreases k,
{
    if k <= 0 {
        0
    } else {
        perimeter(steps, k - 1) + steps[k - 1].2
    }
}

/// Cells dug out by a closed plan: the cells inside its loop (Pick's
/// theorem) and the cells of the loop itself.
pub open spec fn lagoon(steps: Seq<(int, int, int)>) -> int {
    let s = twice_area(steps, steps.len() as int);
    let abs_s = if s >= 0 {
        s
    } else {
        -s
    };
    (abs_s + perimeter(steps, steps.len() as int)) / 2 + 1
}

/// The hex digit at position `k` of `w`.
fn hex_in(w: &Vec<u8>, k: usize) -> (r: Option<u64>)
    ensures
        match r {
            Some(v) => hex_at(w@, k as int) == Some(v as int) && v < 16,
            None => hex_at(w@, k as int) is None,
        },
{
    if k >= w.len() {
        return None;
    }
    let c = w[k];
    if 48 <= c && c <= 57 {
        Some((c - 48) as u64)
    } else if 97 <= c && c <= 102 {
        Some((c - 87) as u64)
    } else if 65 <= c && c <= 70 {
        Some((c - 55) as u64)
    } else {
        None
    }
}

/// Reads one instruction.
fn read_step(line: &Vec<u8>) -> (r: Option<(i64, i64, u64)>)
    ensures
        match r {
            Some((dx, dy, n)) => step_of(line@) == Some((dx as int, dy as int, n as int)) && n
                < 0x10_0000 && -1 <= dx <= 1 && -1 <= dy <= 1,
            None => step_of(line@) is None,
        },
{
    let ws = split_words(line.as_slice());
    let ghost wv = bytes_view(ws@);
    if ws.len() < 3 {
        return None;
    }
    let w = &ws[2];
    assert(wv[2] == w@);
    let a = match hex_in(w, 2) {
        Some(v) => v,
        None => return None,
    };
    let b = match hex_in(w, 3) {
        Some(v) => v,
        None => return None,
    };
    let c = match hex_in(w, 4) {
        Some(v) => v,
        None => return None,
    };
    let d = match hex_in(w, 5) {
        Some(v) => v,
        None => return None,
    };
    let e = match hex_in(w, 6) {
        Some(v) => v,
        None => return None,
    };
    let dir = match hex_in(w, 7) {
        Some(v) => v,
        None => return None,
    };
    let n = a * 65536 + b * 4096 + c * 256 + d * 16 + e;
    if dir == 0 {
        Some((1, 0, n))
    } else if dir == 1 {
        Some((0, 1, n))
    } else if dir == 2 {
        Some((-1, 0, n))
    } else if dir == 3 {
        Some((0, -1, n))
    } else {
        None
    }
}

proof fn lemma_plan_fails(ls: Seq<Seq<u8>>, k: int)
    requires
        0 <= k <= ls.len(),
        plan_of(ls.take(k)) is None,
    ensures
        plan_of(ls) is None,
    decreases ls.len() - k,
{
    if k < ls.len() {
        assert(ls.take(k + 1).drop_last() =~= ls.take(k));
        lemma_plan_fails(ls, k + 1);
    } else {
        assert(ls.take(k) =~= ls);
    }
}

/// The values of a vector of instructions.
pub open spec fn steps_view(v: Seq<(i64, i64, u64)>) -> Seq<(int, int, int)> {
    Seq::new(v.len(), |i: int| (v[i].0 as int, v[i].1 as int, v[i].2 as int))
}

proof fn lemma_product_bound(a: int, b: int, bound: int)
    requires
        -bound <= a <= bound,
        -bound <= b <= bound,
        bound >= 0,
    ensures
        -(bound * bound) <= a * b <= bound * bound,
{
    assert(-(bound * bound) <= a * b <= bound * bound) by (nonlinear_arith)
        requires
            -bound <= a <= bound,
            -bound <= b <= bound,
            bound >= 0,
    ;
}

/// Cubic metres of lava the lagoon holds, one per dug cell; `None` for a
/// malformed line, an empty plan, or a plan of more than `MAX_STEPS` steps.
pub fn part_two(input: &str) -> (r: Option<u128>)
    ensures
        r == match plan_of(lines(input.spec_bytes())) {
            Some(st) => if st.len() == 0 || st.len() > MAX_STEPS {
                None::<u128>
            } else {
                Some(lagoon(st) as u128)
            },
            None => None::<u128>,
        },
{
    let rows = split_lines(input.as_bytes());
    let ghost ls = bytes_view(rows@);
    let mut steps: Vec<(i64, i64, u64)> = Vec::new();
    let mut k: usize = 0;
    assert(ls.take(0) =~= Seq::<Seq<u8>>::empty());
    assert(steps_view(steps@) =~= Seq::<(int, int, int)>::empty());
    while k < rows.len()
        invariant
            ls == bytes_view(rows@),
            ls == lines(input.spec_bytes()),
            k <= ls.len(),
            plan_of(ls.take(k as int)) == Some(steps_view(steps@)),
            forall|i: int|
                0 <= i < steps@.len() ==> (#[trigger] steps@[i]).2 < 0x10_0000 && -1 <= steps@[i].0
                    <= 1 && -1 <= steps@[i].1 <= 1,
        decreases ls.len() - k,
    {
        proof {
            assert(ls.take(k + 1).drop_last() =~= ls.take(k as int));
            assert(ls.take(k + 1).last() == ls[k as int]);
            assert(ls[k as int] == rows@[k as int]@);
        }
        match read_step(&rows[k]) {
            Some(st) => {
                let ghost before = steps@;
                steps.push(st);
                assert(steps_view(steps@) =~= steps_view(before).push(
                    (st.0 as int, st.1 as int, st.2 as int),
                ));
                assert forall|i: int| 0 <= i < steps@.len() implies (#[trigger] steps@[i]).2
                    < 0x10_0000 && -1 <= steps@[i].0 <= 1 && -1 <= steps@[i].1 <= 1 by {
                    if i < before.len() {
                        assert(steps@[i] == before[i]);
                    }
                }
            },
            None => {
                proof {
                    lemma_plan_fails(ls, k + 1);
                }
                return None;
            },
        }
        k = k + 1;
    }
    assert(ls.take(ls.len() as int) =~= ls);
    let ghost sv = steps_view(steps@);
    let n = steps.len();
    if n == 0 || n > MAX_STEPS {
        return None;
    }
    let mut x: i128 = 0;
    let mut y: i128 = 0;
    let mut area: i128 = 0;
    let mut edge: i128 = 0;
    let mut k: usize = 0;
    while k < n
        invariant
            sv == steps_view(steps@),
            n == sv.len(),
            n <= MAX_STEPS,
            k <= n,
            forall|i: int|
                0 <= i < steps@.len() ==> (#[trigger] steps@[i]).2 < 0x10_0000 && -1 <= steps@[i].0
                    <= 1 && -1 <= steps@[i].1 <= 1,
            (x as int, y as int) == corner(sv, k as int),
            area == twice_area(sv, k as int),
            edge == perimeter(sv, k as int),
            -(k * 0x10_0000) <= x <= k * 0x10_0000,
            -(k * 0x10_0000) <= y <= k * 0x10_0000,
            -(k * 0x2_0000_0000_0000_0000_0000_0000) <= area <= k * 0x2_0000_0000_0000_0000_0000_0000,
            0 <= edge <= k * 0x10_0000,
        decreases n - k,
    {
        let (dx, dy, d) = steps[k];
        proof {
            assert(sv[k as int] == (dx as int, dy as int, d as int));
            assert(k * 0x10_0000 <= 0x1000_0000 * 0x10_0000) by (nonlinear_arith)
                requires
                    k <= 0x1000_0000,
            ;
            assert(k * 0x2_0000_0000_0000_0000_0000_0000 <= 0x1000_0000 * 0x2_0000_0000_0000_0000_0000_0000)
                by (nonlinear_arith)
                requires
                    k <= 0x1000_0000,
            ;
            assert(-(d as int) <= dx * d <= d) by (nonlinear_arith)
                requires
                    -1 <= dx <= 1,
                    d >= 0,
            ;
            assert(-(d as int) <= dy * d <= d) by (nonlinear_arith)
                requires
                    -1 <= dy <= 1,
                    d >= 0,
            ;
            assert((k + 1) * 0x10_0000 == k * 0x10_0000 + 0x10_0000) by (nonlinear_arith);
            assert((k + 1) * 0x2_0000_0000_0000_0000_0000_0000 == k * 0x2_0000_0000_0000_0000_0000_0000
                + 0x2_0000_0000_0000_0000_0000_0000) by (nonlinear_arith);
        }
        let nx = x + (dx as i128) * (d as i128);
        let ny = y + (dy as i128) * (d as i128);
        proof {
            let bound: int = 0x1_0000_0000_0000;
            lemma_product_bound(x as int, ny as int, bound);
            lemma_product_bound(nx as int, y as int, bound);
            assert(bound * bound == 0x1_0000_0000_0000_0000_0000_0000);
        }
        area = area + (x * ny - nx * y);
        edge = edge + d as i128;
        x = nx;
        y = ny;
        k = k + 1;
    }
    let abs_area: i128 = if area >= 0 {
        area
    } else {
        -area
    };
    Some(((abs_area + edge) / 2 + 1) as u128)
}

} // verus!
