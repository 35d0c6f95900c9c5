//! The HASH algorithm over an initialization sequence.

use vstd::prelude::*;
use vstd::string::StringSliceAdditionalSpecFns;
use crate::text::{
    bytes_view, lemma_pieces_len, lemma_pieces_step, parse_unsigned, pieces, same_bytes, slice_of,
    split_by, split_on, split_once, split_once_at, unsigned_value, NEWLINE,
};
use vstd::string::StrSliceExecFns;

verus! {

/// The byte that separates steps.
pub const COMMA: u8 = 44;

/// HASH of a text: each byte but a newline turns the value `h` into
/// `(h + byte) * 17 mod 256`, starting from 0.
pub open spec fn hash_of(s: Seq<u8>) -> int
    decreases s.len(),
{
    if s.len() == 0 {
        0
    } else if s.last() == NEWLINE {
        hash_of(s.drop_last())
    } else {
        ((hash_of(s.drop_last()) + s.last()) * 17) % 256
    }
}

/// Sum of the HASH of each step.
pub open spec fn hash_sum(steps: Seq<Seq<u8>>) -> int
    decreases steps.len(),
{
    if steps.len() == 0 {
        0
    } else {
        hash_sum(steps.drop_last()) + hash_of(steps.last())
    }
}

/// Sum of the HASH of each comma-separated step of a text.
pub open spec fn initialization_total(b: Seq<u8>) -> int {
    hash_sum(pieces(b, COMMA))
}

/// `a` capped at 2^32.
pub open spec fn capped(a: int) -> int {
    if a > 0x1_0000_0000 {
        0x1_0000_0000
    } else {
        a
    }
}

proof fn lemma_hash_range(s: Seq<u8>)
    ensures
        0 <= hash_of(s) < 256,
    decreases s.len(),
{
    if s.len() > 0 {
        lemma_hash_range(s.drop_last());
    }
}

/// HASH of the bytes of `s`.
pub fn hash(s: &str) -> (r: u32)
    ensures
        r == hash_of(s.spec_bytes()),
{
    let b = s.as_bytes();
    let mut h: u32 = 0;
    let mut i: usize = 0;
    while i < b.len()
        invariant
            i <= b@.len(),
            h == hash_of(b@.take(i as int)),
            h < 256,
        decreases b@.len() - i,
    {
        proof {
            assert(b@.take(i + 1).drop_last() =~= b@.take(i as int));
        }
        if b[i] != NEWLINE {
            h = ((h + b[i] as u32) * 17) % 256;
        }
        i = i + 1;
    }
    proof {
        assert(b@.take(b@.len() as int) =~= b@);
    }
    h
}

/// Sum of the HASH of each comma-separated step, or `None` when it passes
/// `u32::MAX`.
pub fn part_one(input: &str) -> (r: Option<u32>)
    ensures
        r == if initialization_total(input.spec_bytes()) <= u32::MAX {
            Some(initialization_total(input.spec_bytes()) as u32)
        } else {
            None::<u32>
        },
{
    let b = input.as_bytes();
    let ghost bs = b@;
    let mut cur: u32 = 0;
    let mut total: u64 = 0;
    let mut i: usize = 0;
    proof {
        assert(bs.take(0) =~= Seq::<u8>::empty());
        assert(pieces(bs.take(0), COMMA).drop_last() =~= Seq::<Seq<u8>>::empty());
    }
    while i < b.len()
        invariant
            bs == b@,
            i <= bs.len(),
            cur == hash_of(pieces(bs.take(i as int), COMMA).last()),
            cur < 256,
            total == capped(hash_sum(pieces(bs.take(i as int), COMMA).drop_last())),
        decreases bs.len() - i,
    {
        let c = b[i];
        let ghost before = pieces(bs.take(i as int), COMMA);
        proof {
            lemma_pieces_step(bs, i as int, COMMA);
            lemma_pieces_len(bs.take(i as int), COMMA);
            lemma_hash_range(before.last());
        }
        if c == COMMA {
            total = total + cur as u64;
            if total > 0x1_0000_0000 {
                total = 0x1_0000_0000;
            }
            cur = 0;
            proof {
                let after = pieces(bs.take(i + 1), COMMA);
                assert(after.drop_last() =~= before);
                assert(before =~= before.drop_last().push(before.last()));
                assert(hash_sum(before) == hash_sum(before.drop_last()) + hash_of(before.last()));
            }
        } else {
            if c != NEWLINE {
                cur = ((cur + c as u32) * 17) % 256;
            }
            proof {
                let after = pieces(bs.take(i + 1), COMMA);
                assert(after.drop_last() =~= before.drop_last());
                assert(before.last().push(c).drop_last() =~= before.last());
            }
        }
        i = i + 1;
    }
    proof {
        assert(bs.take(bs.len() as int) =~= bs);
        lemma_pieces_len(bs, COMMA);
        let all = pieces(bs, COMMA);
        assert(all =~= all.drop_last().push(all.last()));
        assert(hash_sum(all) == hash_sum(all.drop_last()) + hash_of(all.last()));
    }
    total = total + cur as u64;
    if total <= 0xFFFF_FFFF {
        Some(total as u32)
    } else {
        None
    }
}

/// A step without its newlines.
pub open spec fn without_newlines(s: Seq<u8>) -> Seq<u8>
    decreases s.len(),
{
    if s.len() == 0 {
        Seq::empty()
    } else if s.last() == NEWLINE {
        without_newlines(s.drop_last())
    } else {
        without_newlines(s.drop_last()).push(s.last())
    }
}

/// What a step asks: its box (the HASH of its first two bytes), the lens
/// label, and the focal length to put in, or `None` to take the lens out;
/// `None` for a step that is neither.
pub open spec fn step_op(raw: Seq<u8>) -> Option<(int, Seq<u8>, Option<int>)> {
    let st = without_newlines(raw);
    if st.len() < 2 {
        None
    } else {
        let bx = hash_of(st.subrange(0, 2));
        match split_once(st, seq![61u8]) {
            Some((label, f)) => match unsigned_value(f) {
                Some(v) => if v <= u32::MAX {
                    Some((bx, label, Some(v)))
                } else {
                    None
                },
                None => None,
            },
            None => if st.last() == 45 {
                Some((bx, st.drop_last(), None))
            } else {
                None
            },
        }
    }
}

/// The first slot at or after `from` holding a lens labelled `label`.
pub open spec fn slot_of(lenses: Seq<(Seq<u8>, int)>, label: Seq<u8>, from: int) -> Option<int>
    decreases lenses.len() - from,
{
    if from < 0 || from >= lenses.len() {
        None
    } else if lenses[from].0 == label {
        Some(from)
    } else {
        slot_of(lenses, label, from + 1)
    }
}

/// Puts a lens in a box: in place of the one with its label, or at the back.
pub open spec fn put_lens(lenses: Seq<(Seq<u8>, int)>, label: Seq<u8>, f: int) -> Seq<
    (Seq<u8>, int),
> {
    match slot_of(lenses, label, 0) {
        Some(i) => lenses.update(i, (label, f)),
        None => lenses.push((label, f)),
    }
}

/// Takes the lens with a label out of a box, if it is there.
pub open spec fn take_lens(lenses: Seq<(Seq<u8>, int)>, label: Seq<u8>) -> Seq<(Seq<u8>, int)> {
    match slot_of(lenses, label, 0) {
        Some(i) => lenses.remove(i),
        None => lenses,
    }
}

/// The boxes after the steps; `None` if a step is neither kind.
pub open spec fn run_steps(steps: Seq<Seq<u8>>) -> Option<Seq<Seq<(Seq<u8>, int)>>>
    decreases steps.len(),
{
    if steps.len() == 0 {
        Some(Seq::new(256, |i: int| Seq::<(Seq<u8>, int)>::empty()))
    } else {
        match (run_steps(steps.drop_last()), step_op(steps.last())) {
            (Some(bs), Some((b, label, op))) => Some(
                bs.update(
                    b,
                    match op {
                        Some(f) => put_lens(bs[b], label, f),
                        None => take_lens(bs[b], label),
                    },
                ),
            ),
            _ => None,
        }
    }
}

/// Focusing power of the first `n` lenses of box `b`.
pub open spec fn box_power(lenses: Seq<(Seq<u8>, int)>, b: int, n: int) -> int
    decreases n,
{
    if n <= 0 {
        0
    } else {
        box_power(lenses, b, n - 1) + (b + 1) * n * lenses[n - 1].1
    }
}

/// Focusing power of the first `n` boxes.
pub open spec fn total_power(bs: Seq<Seq<(Seq<u8>, int)>>, n: int) -> int
    decreases n,
{
    if n <= 0 {
        0
    } else {
        total_power(bs, n - 1) + box_power(bs[n - 1], n - 1, bs[n - 1].len() as int)
    }
}

/// The lenses of a box.
pub open spec fn lens_view(l: Seq<(Vec<u8>, u32)>) -> Seq<(Seq<u8>, int)> {
    Seq::new(l.len(), |i: int| (l[i].0@, l[i].1 as int))
}

/// The lenses of every box.
pub open spec fn boxes_view(bs: Seq<Vec<(Vec<u8>, u32)>>) -> Seq<Seq<(Seq<u8>, int)>> {
    Seq::new(bs.len(), |i: int| lens_view(bs[i]@))
}

proof fn lemma_no_newlines(s: Seq<u8>)
    ensures
        forall|i: int| 0 <= i < without_newlines(s).len() ==> #[trigger] without_newlines(s)[i]
            != NEWLINE,
    decreases s.len(),
{
    if s.len() > 0 {
        lemma_no_newlines(s.drop_last());
        let r = without_newlines(s.drop_last());
        if s.last() != NEWLINE {
            assert forall|i: int| 0 <= i < r.push(s.last()).len() implies #[trigger] r.push(
                s.last(),
            )[i] != NEWLINE by {
                if i < r.len() {
                    assert(r.push(s.last())[i] == r[i]);
                }
            }
        }
    }
}

/// What a step asks.
fn read_step(raw: &Vec<u8>) -> (r: Option<(usize, Vec<u8>, Option<u32>)>)
    ensures
        match r {
            Some((b, label, op)) => b < 256 && step_op(raw@) == Some(
                (
                    b as int,
                    label@,
                    match op {
                        Some(f) => Some(f as int),
                        None => None::<int>,
                    },
                ),
            ),
            None => step_op(raw@) is None,
        },
{
    let mut st: Vec<u8> = Vec::new();
    let mut i: usize = 0;
    assert(raw@.take(0) =~= Seq::<u8>::empty());
    while i < raw.len()
        invariant
            i <= raw@.len(),
            st@ == without_newlines(raw@.take(i as int)),
        decreases raw@.len() - i,
    {
        proof {
            assert(raw@.take(i + 1).drop_last() =~= raw@.take(i as int));
        }
        if raw[i] != NEWLINE {
            st.push(raw[i]);
        }
        i = i + 1;
    }
    assert(raw@.take(raw@.len() as int) =~= raw@);
    if st.len() < 2 {
        return None;
    }
    proof {
        lemma_no_newlines(raw@);
        let two = st@.subrange(0, 2);
        assert(two.drop_last() =~= st@.subrange(0, 1));
        assert(st@.subrange(0, 1).drop_last() =~= Seq::<u8>::empty());
        assert(two.last() == st@[1] && st@[1] != NEWLINE);
        assert(st@.subrange(0, 1).last() == st@[0] && st@[0] != NEWLINE);
    }
    let h0 = ((st[0] as u32) * 17) % 256;
    let b = (((h0 + st[1] as u32) * 17) % 256) as usize;
    proof {
        let two = st@.subrange(0, 2);
        let one = st@.subrange(0, 1);
        assert(hash_of(Seq::<u8>::empty()) == 0);
        assert(hash_of(one) == h0);
        assert(hash_of(two) == b);
        assert(st@ == without_newlines(raw@));
    }
    let eq: Vec<u8> = vec![61u8];
    assert(eq@ =~= seq![61u8]);
    match split_once_at(&st, &eq) {
        Some((label, f)) => match parse_unsigned(&f, 0xFFFF_FFFF) {
            Some(v) => Some((b, label, Some(v as u32))),
            None => None,
        },
        None => {
            let n = st.len();
            if st[n - 1] == 45 {
                let label = slice_of(&st, 0, n - 1);
                assert(label@ =~= st@.drop_last());
                Some((b, label, None))
            } else {
                None
            }
        },
    }
}

/// The slot of the lens labelled `label`, if any.
fn find_slot(lenses: &Vec<(Vec<u8>, u32)>, label: &Vec<u8>) -> (r: Option<usize>)
    ensures
        match r {
            Some(i) => slot_of(lens_view(lenses@), label@, 0) == Some(i as int) && i
                < lenses@.len(),
            None => slot_of(lens_view(lenses@), label@, 0) is None,
        },
{
    let ghost lv = lens_view(lenses@);
    let mut i: usize = 0;
    while i < lenses.len()
        invariant
            lv == lens_view(lenses@),
            i <= lv.len(),
            slot_of(lv, label@, 0) == slot_of(lv, label@, i as int),
        decreases lv.len() - i,
    {
        if same_bytes(&lenses[i].0, label) {
            return Some(i);
        }
        i = i + 1;
    }
    None
}

/// Carries out one step on the boxes.
fn apply_step(boxes: &mut Vec<Vec<(Vec<u8>, u32)>>, b: usize, label: Vec<u8>, op: Option<u32>)
    requires
        b < old(boxes)@.len(),
    ensures
        final(boxes)@.len() == old(boxes)@.len(),
        boxes_view(final(boxes)@) == boxes_view(old(boxes)@).update(
            b as int,
            match op {
                Some(f) => put_lens(boxes_view(old(boxes)@)[b as int], label@, f as int),
                None => take_lens(boxes_view(old(boxes)@)[b as int], label@),
            },
        ),
{
    let ghost old_view = boxes_view(boxes@);
    let ghost old_boxes = boxes@;
    let mut lenses = boxes.remove(b);
    let ghost lv = lens_view(lenses@);
    assert(lv == old_view[b as int]);
    let slot = find_slot(&lenses, &label);
    match op {
        Some(f) => match slot {
            Some(i) => {
                lenses.set(i, (label, f));
                assert(lens_view(lenses@) =~= lv.update(i as int, (label@, f as int)));
            },
            None => {
                lenses.push((label, f));
                assert(lens_view(lenses@) =~= lv.push((label@, f as int)));
            },
        },
        None => match slot {
            Some(i) => {
                lenses.remove(i);
                assert(lens_view(lenses@) =~= lv.remove(i as int));
            },
            None => {},
        },
    }
    let ghost new_lv = lens_view(lenses@);
    boxes.insert(b, lenses);
    assert(boxes@ =~= old_boxes.update(b as int, boxes@[b as int]));
    assert(boxes_view(boxes@) =~= old_view.update(b as int, new_lv));
}

proof fn lemma_run_fails(steps: Seq<Seq<u8>>, k: int)
    requires
        0 <= k <= steps.len(),
        run_steps(steps.take(k)) is None,
    ensures
        run_steps(steps) is None,
    decreases steps.len() - k,
{
    if k < steps.len() {
        assert(steps.take(k + 1).drop_last() =~= steps.take(k));
        lemma_run_fails(steps, k + 1);
    } else {
        assert(steps.take(k) =~= steps);
    }
}

proof fn lemma_box_power_nonneg(lenses: Seq<(Seq<u8>, int)>, b: int, n: int)
    requires
        b >= 0,
        n <= lenses.len(),
        forall|i: int| 0 <= i < lenses.len() ==> #[trigger] lenses[i].1 >= 0,
    ensures
        box_power(lenses, b, n) >= 0,
    decreases n,
{
    if n > 0 {
        lemma_box_power_nonneg(lenses, b, n - 1);
        assert((b + 1) * n * lenses[n - 1].1 >= 0) by (nonlinear_arith)
            requires
                b >= 0,
                n >= 0,
                lenses[n - 1].1 >= 0,
        ;
    }
}

/// Total focusing power of the lenses once every step is carried out;
/// `None` if a step is neither kind or the total passes `u32::MAX`.
pub fn part_two(input: &str) -> (r: Option<u32>)
    ensures
        r == match run_steps(split_on(input.spec_bytes(), seq![44u8])) {
            Some(bs) => if total_power(bs, 256) <= u32::MAX {
                Some(total_power(bs, 256) as u32)
            } else {
                None::<u32>
            },
            None => None::<u32>,
        },
{
    let text = input.as_bytes_vec();
    let comma: Vec<u8> = vec![44u8];
    assert(comma@ =~= seq![44u8]);
    let steps = split_by(&text, &comma);
    let ghost sv = bytes_view(steps@);
    let mut boxes: Vec<Vec<(Vec<u8>, u32)>> = Vec::new();
    let mut k: usize = 0;
    while k < 256
        invariant
            k <= 256,
            boxes@.len() == k,
            forall|j: int| 0 <= j < k ==> (#[trigger] boxes@[j])@.len() == 0,
        decreases 256 - k,
    {
        boxes.push(Vec::new());
        k = k + 1;
    }
    assert forall|j: int| 0 <= j < 256 implies #[trigger] boxes_view(boxes@)[j] =~= Seq::<
        (Seq<u8>, int),
    >::empty() by {
        assert(boxes@[j]@.len() == 0);
    }
    assert(boxes_view(boxes@) =~= Seq::new(256, |i: int| Seq::<(Seq<u8>, int)>::empty()));
    assert(sv.take(0) =~= Seq::<Seq<u8>>::empty());
    let mut k: usize = 0;
    while k < steps.len()
        invariant
            sv == bytes_view(steps@),
            sv == split_on(input.spec_bytes(), seq![44u8]),
            k <= sv.len(),
            boxes@.len() == 256,
            run_steps(sv.take(k as int)) == Some(boxes_view(boxes@)),
        decreases sv.len() - k,
    {
        proof {
            assert(sv.take(k + 1).drop_last() =~= sv.take(k as int));
            assert(sv.take(k + 1).last() == sv[k as int]);
            assert(sv[k as int] == steps@[k as int]@);
        }
        match read_step(&steps[k]) {
            Some((b, label, op)) => {
                apply_step(&mut boxes, b, label, op);
            },
            None => {
                proof {
                    lemma_run_fails(sv, k + 1);
                }
                return None;
            },
        }
        k = k + 1;
    }
    assert(sv.take(sv.len() as int) =~= sv);
    let ghost bv = boxes_view(boxes@);
    let mut total: u128 = 0;
    let mut b: usize = 0;
    while b < 256
        invariant
            bv == boxes_view(boxes@),
            boxes@.len() == 256,
            b <= 256,
            total_power(bv, b as int) >= 0,
            total == capped(total_power(bv, b as int)),
        decreases 256 - b,
    {
        let ghost lv = bv[b as int];
        assert(lv == lens_view(boxes@[b as int]@));
        let mut i: usize = 0;
        let mut acc: u128 = 0;
        while i < boxes[b].len()
            invariant
                bv == boxes_view(boxes@),
                boxes@.len() == 256,
                b < 256,
                lv == bv[b as int],
                lv == lens_view(boxes@[b as int]@),
                i <= lv.len(),
                box_power(lv, b as int, i as int) >= 0,
                acc == capped(box_power(lv, b as int, i as int)),
            decreases lv.len() - i,
        {
            let f = boxes[b][i].1;
            proof {
                assert(lv[i as int].1 == f as int);
                assert((b + 1) * (i + 1) <= 256 * 0x1_0000_0000_0000_0000) by (nonlinear_arith)
                    requires
                        b < 256,
                        i < 0xFFFF_FFFF_FFFF_FFFF,
                ;
                assert((b + 1) * (i + 1) * f <= 256 * 0x1_0000_0000_0000_0000 * 0xFFFF_FFFF)
                    by (nonlinear_arith)
                    requires
                        (b + 1) * (i + 1) <= 256 * 0x1_0000_0000_0000_0000,
                        f <= 0xFFFF_FFFF,
                        (b + 1) * (i + 1) >= 0,
                ;
                assert((b + 1) * (i + 1) * f >= 0) by (nonlinear_arith)
                    requires
                        b >= 0,
                        i >= 0,
                        f >= 0,
                ;
            }
            let term = ((b as u128) + 1) * ((i as u128) + 1) * (f as u128);
            if term > 0x1_0000_0000 {
                acc = 0x1_0000_0000;
            } else {
                acc = acc + term;
                if acc > 0x1_0000_0000 {
                    acc = 0x1_0000_0000;
                }
            }
            i = i + 1;
        }
        total = total + acc;
        if total > 0x1_0000_0000 {
            total = 0x1_0000_0000;
        }
        b = b + 1;
    }
    if total <= 0xFFFF_FFFF {
        Some(total as u32)
    } else {
        None
    }
}

} // verus!
