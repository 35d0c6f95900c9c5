//! Calibration values: the first and last digit of each line.

use vstd::prelude::*;
use vstd::string::StringSliceAdditionalSpecFns;
use crate::text::{digit_value, is_digit, starts_with_at, word_at, NEWLINE};

verus! {

/// The spelling of digit `k`, for `k` from 1 to 9.
pub open spec fn digit_word(k: int) -> Seq<u8> {
    if k == 1 {
        seq![111u8, 110, 101]
    } else if k == 2 {
        seq![116u8, 119, 111]
    } else if k == 3 {
        seq![116u8, 104, 114, 101, 101]
    } else if k == 4 {
        seq![102u8, 111, 117, 114]
    } else if k == 5 {
        seq![102u8, 105, 118, 101]
    } else if k == 6 {
        seq![115u8, 105, 120]
    } else if k == 7 {
        seq![115u8, 101, 118, 101, 110]
    } else if k == 8 {
        seq![101u8, 105, 103, 104, 116]
    } else {
        seq![110u8, 105, 110, 101]
    }
}

/// The least `k` from `from` to 9 whose spelling starts at `i`.
pub open spec fn spelled_digit(b: Seq<u8>, i: int, from: int) -> Option<int>
    decreases 10 - from,
{
    if from > 9 || from < 1 {
        None
    } else if word_at(b, i, digit_word(from)) {
        Some(from)
    } else {
        spelled_digit(b, i, from + 1)
    }
}

/// The digit that starts at `i`: a digit byte, or, when `words` holds, the
/// spelling of one.
pub open spec fn digit_at(b: Seq<u8>, i: int, words: bool) -> Option<int> {
    if is_digit(b[i]) {
        Some(digit_value(b[i]) as int)
    } else if words {
        spelled_digit(b, i, 1)
    } else {
        None
    }
}

/// A line's calibration value from its first and last digit; 0 without digits.
pub open spec fn line_value(first: Option<int>, last: Option<int>) -> int {
    match (first, last) {
        (Some(f), Some(l)) => 10 * f + l,
        _ => 0,
    }
}

/// After the first `n` bytes: the sum over finished lines, and the first and
/// last digit of the line under way.
pub open spec fn scan(b: Seq<u8>, n: int, words: bool) -> (int, Option<int>, Option<int>)
    decreases n,
{
    if n <= 0 {
        (0, None, None)
    } else {
        let (t, f, l) = scan(b, n - 1, words);
        if b[n - 1] == NEWLINE {
            (t + line_value(f, l), None, None)
        } else {
            match digit_at(b, n - 1, words) {
                Some(v) => (t, if f is Some {
                    f
                } else {
                    Some(v)
                }, Some(v)),
                None => (t, f, l),
            }
        }
    }
}

/// Sum over the lines of a text of ten times the line's first digit plus
/// its last digit.
pub open spec fn calibration_total(b: Seq<u8>, words: bool) -> int {
    let (t, f, l) = scan(b, b.len() as int, words);
    t + line_value(f, l)
}

/// `a` capped at 2^32.
pub open spec fn capped(a: int) -> int {
    if a > 0x1_0000_0000 {
        0x1_0000_0000
    } else {
        a
    }
}

/// The spelling of digit `k`.
fn word_bytes(k: u32) -> (r: Vec<u8>)
    requires
        1 <= k <= 9,
    ensures
        r@ == digit_word(k as int),
{
    let r = if k == 1 {
        vec![111u8, 110, 101]
    } else if k == 2 {
        vec![116u8, 119, 111]
    } else if k == 3 {
        vec![116u8, 104, 114, 101, 101]
    } else if k == 4 {
        vec![102u8, 111, 117, 114]
    } else if k == 5 {
        vec![102u8, 105, 118, 101]
    } else if k == 6 {
        vec![115u8, 105, 120]
    } else if k == 7 {
        vec![115u8, 101, 118, 101, 110]
    } else if k == 8 {
        vec![101u8, 105, 103, 104, 116]
    } else {
        vec![110u8, 105, 110, 101]
    };
    assert(r@ =~= digit_word(k as int));
    r
}

/// The digit that starts at `i`.
fn digit_starting(b: &[u8], i: usize, words: bool) -> (r: Option<u32>)
    requires
        i < b@.len(),
    ensures
        match r {
            Some(v) => digit_at(b@, i as int, words) == Some(v as int) && v <= 9,
            None => digit_at(b@, i as int, words) is None,
        },
{
    let c = b[i];
    if 48 <= c && c <= 57 {
        return Some((c - 48) as u32);
    }
    assert(!is_digit(b@[i as int]));
    if !words {
        return None;
    }
    let mut k: u32 = 1;
    while k <= 9
        invariant
            1 <= k <= 10,
            words,
            i < b@.len(),
            !is_digit(b@[i as int]),
            spelled_digit(b@, i as int, 1) == spelled_digit(b@, i as int, k as int),
        decreases 10 - k,
    {
        let w = word_bytes(k);
        if starts_with_at(b, i, &w) {
            assert(spelled_digit(b@, i as int, k as int) == Some(k as int));
            assert(digit_at(b@, i as int, words) == Some(k as int));
            return Some(k);
        }
        k = k + 1;
    }
    None
}

/// Sum of the calibration values of the lines of `b`, or `None` past
/// `u32::MAX`.
fn calibration(b: &[u8], words: bool) -> (r: Option<u32>)
    ensures
        r == if calibration_total(b@, words) <= u32::MAX {
            Some(calibration_total(b@, words) as u32)
        } else {
            None::<u32>
        },
{
    let mut total: u64 = 0;
    let mut first: Option<u32> = None;
    let mut last: Option<u32> = None;
    let mut i: usize = 0;
    while i < b.len()
        invariant
            i <= b@.len(),
            total == capped(scan(b@, i as int, words).0),
            scan(b@, i as int, words).1 == match first {
                Some(f) => Some(f as int),
                None => None::<int>,
            },
            scan(b@, i as int, words).2 == match last {
                Some(l) => Some(l as int),
                None => None::<int>,
            },
            first is Some <==> last is Some,
            first is Some ==> first->0 <= 9,
            last is Some ==> last->0 <= 9,
            scan(b@, i as int, words).0 >= 0,
        decreases b@.len() - i,
    {
        if b[i] == NEWLINE {
            if let (Some(f), Some(l)) = (first, last) {
                total = total + (10 * f + l) as u64;
                if total > 0x1_0000_0000 {
                    total = 0x1_0000_0000;
                }
            }
            first = None;
            last = None;
        } else {
            match digit_starting(b, i, words) {
                Some(v) => {
                    if first.is_none() {
                        first = Some(v);
                    }
                    last = Some(v);
                },
                None => {},
            }
        }
        i = i + 1;
    }
    if let (Some(f), Some(l)) = (first, last) {
        total = total + (10 * f + l) as u64;
    }
    if total <= 0xFFFF_FFFF {
        Some(total as u32)
    } else {
        None
    }
}

/// Sum of the calibration values, reading digit bytes only.
pub fn part_one(input: &str) -> (r: Option<u32>)
    ensures
        r == if calibration_total(input.spec_bytes(), false) <= u32::MAX {
            Some(calibration_total(input.spec_bytes(), false) as u32)
        } else {
            None::<u32>
        },
{
    calibration(input.as_bytes(), false)
}

/// Sum of the calibration values, reading spelled-out digits as well.
pub fn part_two(input: &str) -> (r: Option<u32>)
    ensures
        r == if calibration_total(input.spec_bytes(), true) <= u32::MAX {
            Some(calibration_total(input.spec_bytes(), true) as u32)
        } else {
            None::<u32>
        },
{
    calibration(input.as_bytes(), true)
}

} // verus!
