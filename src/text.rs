//! Splitting input text into lines and reading digits.

use vstd::prelude::*;

verus! {

/// The byte that ends a line.
pub const NEWLINE: u8 = 10;

/// The pieces between occurrences of `sep`; always at least one piece.
pub open spec fn pieces(b: Seq<u8>, sep: u8) -> Seq<Seq<u8>>
    decreases b.len(),
{
    if b.len() == 0 {
        seq![Seq::empty()]
    } else {
        let p = pieces(b.drop_last(), sep);
        if b.last() == sep {
            p.push(Seq::empty())
        } else {
            p.update(p.len() - 1, p.last().push(b.last()))
        }
    }
}

/// The lines of a text: its pieces between newlines, without the empty piece
/// after a final newline.
pub open spec fn lines(b: Seq<u8>) -> Seq<Seq<u8>> {
    let p = pieces(b, NEWLINE);
    if p.last().len() == 0 {
        p.drop_last()
    } else {
        p
    }
}

/// Whether a byte is an ASCII decimal digit.
pub open spec fn is_digit(c: u8) -> bool {
    48 <= c <= 57
}

/// The value of an ASCII decimal digit.
pub open spec fn digit_value(c: u8) -> u32 {
    (c - 48) as u32
}

/// There is always at least one piece.
pub proof fn lemma_pieces_len(b: Seq<u8>, sep: u8)
    ensures
        pieces(b, sep).len() >= 1,
    decreases b.len(),
{
    if b.len() > 0 {
        lemma_pieces_len(b.drop_last(), sep);
    }
}

/// Stepping `pieces` forward by one byte.
pub proof fn lemma_pieces_step(b: Seq<u8>, i: int, sep: u8)
    requires
        0 <= i < b.len(),
    ensures
        pieces(b.take(i + 1), sep) == if b[i] == sep {
            pieces(b.take(i), sep).push(Seq::empty())
        } else {
            pieces(b.take(i), sep).update(
                pieces(b.take(i), sep).len() - 1,
                pieces(b.take(i), sep).last().push(b[i]),
            )
        },
{
    assert(b.take(i + 1).drop_last() =~= b.take(i));
    lemma_pieces_len(b.take(i), sep);
}

/// The contents of rows of byte vectors.
pub open spec fn bytes_view(rows: Seq<Vec<u8>>) -> Seq<Seq<u8>> {
    Seq::new(rows.len(), |j: int| rows[j]@)
}

/// Splits a text into its lines.
pub fn split_lines(b: &[u8]) -> (r: Vec<Vec<u8>>)
    ensures
        bytes_view(r@) == lines(b@),
{
    let ghost bs = b@;
    let mut rows: Vec<Vec<u8>> = Vec::new();
    let mut cur: Vec<u8> = Vec::new();
    let mut i: usize = 0;
    proof {
        assert(bs.take(0) =~= Seq::<u8>::empty());
        assert(bytes_view(rows@).push(cur@) =~= pieces(bs.take(0), NEWLINE));
    }
    while i < b.len()
        invariant
            b@ == bs,
            i <= bs.len(),
            bytes_view(rows@).push(cur@) == pieces(bs.take(i as int), NEWLINE),
        decreases bs.len() - i,
    {
        let c = b[i];
        let ghost before = pieces(bs.take(i as int), NEWLINE);
        let ghost old_rows = bytes_view(rows@);
        let ghost old_cur = cur@;
        proof {
            lemma_pieces_step(bs, i as int, NEWLINE);
            lemma_pieces_len(bs.take(i as int), NEWLINE);
            assert(old_rows.push(old_cur).len() == old_rows.len() + 1);
            assert(old_rows.push(old_cur)[old_rows.len() as int] == old_cur);
            assert forall|j: int| 0 <= j < old_rows.len() implies old_rows[j] == before[j] by {
                assert(old_rows.push(old_cur)[j] == old_rows[j]);
            }
        }
        if c == NEWLINE {
            rows.push(cur);
            cur = Vec::new();
            proof {
                assert(bytes_view(rows@).push(cur@) =~= pieces(bs.take(i + 1), NEWLINE));
            }
        } else {
            cur.push(c);
            proof {
                assert(bytes_view(rows@).push(cur@) =~= pieces(bs.take(i + 1), NEWLINE));
            }
        }
        i = i + 1;
    }
    proof {
        assert(bs.take(bs.len() as int) =~= bs);
        lemma_pieces_len(bs, NEWLINE);
    }
    let ghost all = pieces(bs, NEWLINE);
    let ghost old_rows = bytes_view(rows@);
    let ghost old_cur = cur@;
    proof {
        assert(old_rows.push(old_cur).len() == old_rows.len() + 1);
        assert(old_rows.push(old_cur)[old_rows.len() as int] == old_cur);
        assert forall|j: int| 0 <= j < old_rows.len() implies old_rows[j] == all[j] by {
            assert(old_rows.push(old_cur)[j] == old_rows[j]);
        }
    }
    if cur.len() > 0 {
        rows.push(cur);
        proof {
            assert(bytes_view(rows@) =~= all);
        }
    } else {
        proof {
            assert(bytes_view(rows@) =~= all.drop_last());
        }
    }
    rows
}

/// ASCII whitespace: space, tab, line feed, vertical tab, form feed,
/// carriage return.
pub open spec fn is_space(c: u8) -> bool {
    c == 32 || (9 <= c <= 13)
}

/// Words finished so far, and the word under way, after reading `b`.
pub open spec fn word_scan(b: Seq<u8>) -> (Seq<Seq<u8>>, Seq<u8>)
    decreases b.len(),
{
    if b.len() == 0 {
        (Seq::empty(), Seq::empty())
    } else {
        let (ws, cur) = word_scan(b.drop_last());
        if is_space(b.last()) {
            if cur.len() > 0 {
                (ws.push(cur), Seq::empty())
            } else {
                (ws, Seq::empty())
            }
        } else {
            (ws, cur.push(b.last()))
        }
    }
}

/// The maximal runs of non-whitespace bytes of a text.
pub open spec fn words(b: Seq<u8>) -> Seq<Seq<u8>> {
    let (ws, cur) = word_scan(b);
    if cur.len() > 0 {
        ws.push(cur)
    } else {
        ws
    }
}

/// Splits a text at whitespace, dropping empty words.
pub fn split_words(b: &[u8]) -> (r: Vec<Vec<u8>>)
    ensures
        bytes_view(r@) == words(b@),
{
    let mut ws: Vec<Vec<u8>> = Vec::new();
    let mut cur: Vec<u8> = Vec::new();
    let mut i: usize = 0;
    proof {
        assert(b@.take(0) =~= Seq::<u8>::empty());
        assert(bytes_view(ws@) =~= Seq::<Seq<u8>>::empty());
    }
    while i < b.len()
        invariant
            i <= b@.len(),
            bytes_view(ws@) == word_scan(b@.take(i as int)).0,
            cur@ == word_scan(b@.take(i as int)).1,
        decreases b@.len() - i,
    {
        let c = b[i];
        proof {
            assert(b@.take(i + 1).drop_last() =~= b@.take(i as int));
        }
        let ghost old_ws = bytes_view(ws@);
        if c == 32 || (9 <= c && c <= 13) {
            if cur.len() > 0 {
                ws.push(cur);
                cur = Vec::new();
                proof {
                    assert(bytes_view(ws@) =~= old_ws.push(word_scan(b@.take(i as int)).1));
                }
            } else {
                cur = Vec::new();
            }
        } else {
            cur.push(c);
        }
        i = i + 1;
    }
    proof {
        assert(b@.take(b@.len() as int) =~= b@);
    }
    let ghost old_ws = bytes_view(ws@);
    if cur.len() > 0 {
        ws.push(cur);
        proof {
            assert(bytes_view(ws@) =~= old_ws.push(word_scan(b@).1));
        }
    }
    ws
}

/// Value of a string of decimal digits.
pub open spec fn decimal(ds: Seq<u8>) -> int
    decreases ds.len(),
{
    if ds.len() == 0 {
        0
    } else {
        decimal(ds.drop_last()) * 10 + digit_value(ds.last())
    }
}

/// Every byte is a decimal digit.
pub open spec fn all_digits(ds: Seq<u8>) -> bool {
    forall|i: int| 0 <= i < ds.len() ==> is_digit(#[trigger] ds[i])
}

/// A non-negative integer written as an optional `+` and one or more digits.
pub open spec fn unsigned_value(w: Seq<u8>) -> Option<int> {
    let ds = if w.len() > 0 && w[0] == 43 {
        w.subrange(1, w.len() as int)
    } else {
        w
    };
    if ds.len() > 0 && all_digits(ds) {
        Some(decimal(ds))
    } else {
        None
    }
}

/// An integer written as an optional sign and one or more digits.
pub open spec fn signed_value(w: Seq<u8>) -> Option<int> {
    if w.len() > 0 && w[0] == 45 {
        let ds = w.subrange(1, w.len() as int);
        if ds.len() > 0 && all_digits(ds) {
            Some(-decimal(ds))
        } else {
            None
        }
    } else {
        unsigned_value(w)
    }
}

proof fn lemma_decimal_grows(ds: Seq<u8>, i: int)
    requires
        0 <= i <= ds.len(),
        all_digits(ds),
    ensures
        decimal(ds) >= decimal(ds.take(i)) >= 0,
    decreases ds.len() - i,
{
    if i < ds.len() {
        lemma_decimal_grows(ds, i + 1);
        assert(ds.take(i + 1).drop_last() =~= ds.take(i));
        lemma_decimal_nonneg(ds.take(i));
    } else {
        assert(ds.take(i) =~= ds);
        lemma_decimal_nonneg(ds);
    }
}

proof fn lemma_decimal_nonneg(ds: Seq<u8>)
    requires
        all_digits(ds),
    ensures
        decimal(ds) >= 0,
    decreases ds.len(),
{
    if ds.len() > 0 {
        lemma_decimal_nonneg(ds.drop_last());
    }
}

/// Value of the digits `w[from..]`, if they are one or more digits and the
/// value is at most `limit`.
fn digits_value(w: &Vec<u8>, from: usize, limit: u64) -> (r: Option<u64>)
    requires
        from <= w@.len(),
    ensures
        match r {
            Some(v) => w@.len() > from && all_digits(w@.subrange(from as int, w@.len() as int))
                && v == decimal(w@.subrange(from as int, w@.len() as int)) && v <= limit,
            None => !(w@.len() > from && all_digits(w@.subrange(from as int, w@.len() as int))
                && decimal(w@.subrange(from as int, w@.len() as int)) <= limit),
        },
{
    let ghost ds = w@.subrange(from as int, w@.len() as int);
    if from >= w.len() {
        return None;
    }
    let mut v: u64 = 0;
    let mut i: usize = from;
    proof {
        assert(ds.take(0) =~= Seq::<u8>::empty());
    }
    while i < w.len()
        invariant
            from <= i <= w@.len(),
            ds == w@.subrange(from as int, w@.len() as int),
            v <= limit,
            v == decimal(ds.take(i - from)),
            all_digits(ds.take(i - from)),
        decreases w@.len() - i,
    {
        let c = w[i];
        assert(ds[i - from] == c);
        if c < 48 || c > 57 {
            assert(!is_digit(ds[i - from]));
            return None;
        }
        proof {
            assert(ds.take(i - from + 1).drop_last() =~= ds.take(i - from));
            assert(ds.take(i - from + 1).last() == c);
        }
        let d = (c - 48) as u64;
        if d > limit || v > (limit - d) / 10 {
            proof {
                if d <= limit {
                    let q = (limit - d) / 10;
                    assert(v * 10 + d > limit) by (nonlinear_arith)
                        requires
                            v > q,
                            q == (limit - d) / 10,
                            d <= limit,
                    ;
                }
                assert(all_digits(ds.take(i - from + 1)));
                if all_digits(ds) {
                    lemma_decimal_grows(ds, i - from + 1);
                }
            }
            return None;
        }
        proof {
            let q = (limit - d) / 10;
            assert(v * 10 + d <= limit) by (nonlinear_arith)
                requires
                    v <= q,
                    q == (limit - d) / 10,
                    d <= limit,
            ;
        }
        v = v * 10 + d;
        i = i + 1;
    }
    proof {
        assert(ds.take(i - from) =~= ds);
    }
    Some(v)
}

/// The value of a word of an optional `+` and digits, if at most `limit`.
pub fn parse_unsigned(w: &Vec<u8>, limit: u64) -> (r: Option<u64>)
    ensures
        match r {
            Some(v) => unsigned_value(w@) == Some(v as int) && v <= limit,
            None => !(unsigned_value(w@) is Some && unsigned_value(w@)->0 <= limit),
        },
{
    if w.len() > 0 && w[0] == 43 {
        digits_value(w, 1, limit)
    } else {
        proof {
            assert(w@.subrange(0, w@.len() as int) =~= w@);
        }
        digits_value(w, 0, limit)
    }
}

/// The value of a word of an optional sign and digits, if it fits an `i64`.
pub fn parse_signed(w: &Vec<u8>) -> (r: Option<i64>)
    ensures
        match r {
            Some(v) => signed_value(w@) == Some(v as int),
            None => !(signed_value(w@) is Some && i64::MIN <= signed_value(w@)->0 <= i64::MAX),
        },
{
    if w.len() > 0 && w[0] == 45 {
        match digits_value(w, 1, 0x8000_0000_0000_0000) {
            Some(v) => if v == 0x8000_0000_0000_0000 {
                Some(i64::MIN)
            } else {
                Some(-(v as i64))
            },
            None => None,
        }
    } else {
        match parse_unsigned(w, 0x7FFF_FFFF_FFFF_FFFF) {
            Some(v) => Some(v as i64),
            None => None,
        }
    }
}

/// Written unsigned values are never negative.
pub proof fn lemma_unsigned_nonneg(w: Seq<u8>)
    ensures
        unsigned_value(w) is Some ==> unsigned_value(w)->0 >= 0,
{
    let ds = if w.len() > 0 && w[0] == 43 {
        w.subrange(1, w.len() as int)
    } else {
        w
    };
    if ds.len() > 0 && all_digits(ds) {
        lemma_decimal_nonneg(ds);
    }
}

/// Whether `w` occurs in `b` starting at `i`.
pub open spec fn word_at(b: Seq<u8>, i: int, w: Seq<u8>) -> bool {
    0 <= i && i + w.len() <= b.len() && b.subrange(i, i + w.len()) == w
}

/// Whether `w` occurs in `b` starting at `i`.
pub fn starts_with_at(b: &[u8], i: usize, w: &Vec<u8>) -> (r: bool)
    ensures
        r == word_at(b@, i as int, w@),
{
    if i > b.len() {
        return false;
    }
    let mut j: usize = 0;
    while j < w.len()
        invariant
            i <= b@.len(),
            i + j <= b@.len(),
            j <= w@.len(),
            forall|k: int| 0 <= k < j ==> b@[i + k] == w@[k],
        decreases w@.len() - j,
    {
        if j >= b.len() - i || b[i + j] != w[j] {
            proof {
                if i + w@.len() <= b@.len() {
                    assert(b@.subrange(i as int, i + w@.len())[j as int] == b@[i + j]);
                }
            }
            return false;
        }
        j = j + 1;
    }
    assert(b@.subrange(i as int, i + w@.len()) =~= w@);
    true
}

/// The first position at or after `from` where `pat` occurs in `s`.
pub open spec fn find_from(s: Seq<u8>, pat: Seq<u8>, from: int) -> Option<int>
    decreases s.len() + 1 - from,
{
    if from < 0 || from + pat.len() > s.len() {
        None
    } else if word_at(s, from, pat) {
        Some(from)
    } else {
        find_from(s, pat, from + 1)
    }
}

/// The first position where `pat` occurs in `s`.
pub fn find(s: &Vec<u8>, pat: &Vec<u8>) -> (r: Option<usize>)
    ensures
        match r {
            Some(i) => find_from(s@, pat@, 0) == Some(i as int),
            None => find_from(s@, pat@, 0) is None,
        },
{
    let mut i: usize = 0;
    while i <= s.len()
        invariant
            i <= s@.len(),
            find_from(s@, pat@, 0) == find_from(s@, pat@, i as int),
        decreases s@.len() + 1 - i,
    {
        if pat.len() > s.len() - i {
            return None;
        }
        if starts_with_at(s.as_slice(), i, pat) {
            return Some(i);
        }
        if pat.len() == 0 {
            assert(s@.subrange(i as int, i as int) =~= pat@);
        }
        i = i + 1;
    }
    None
}

/// The bytes of `s` from `from` up to `to`.
pub fn slice_of(s: &Vec<u8>, from: usize, to: usize) -> (r: Vec<u8>)
    requires
        from <= to <= s@.len(),
    ensures
        r@ == s@.subrange(from as int, to as int),
{
    let mut r: Vec<u8> = Vec::new();
    let mut k: usize = from;
    while k < to
        invariant
            from <= k <= to <= s@.len(),
            r@ == s@.subrange(from as int, k as int),
        decreases to - k,
    {
        r.push(s[k]);
        proof {
            assert(r@ =~= s@.subrange(from as int, k + 1));
        }
        k = k + 1;
    }
    r
}

/// A match found by `find_from` lies inside the text.
pub proof fn lemma_find_bounds(s: Seq<u8>, pat: Seq<u8>, from: int)
    ensures
        find_from(s, pat, from) is Some ==> from <= find_from(s, pat, from)->0 && find_from(
            s,
            pat,
            from,
        )->0 + pat.len() <= s.len(),
    decreases s.len() + 1 - from,
{
    if !(from < 0 || from + pat.len() > s.len()) && !word_at(s, from, pat) {
        lemma_find_bounds(s, pat, from + 1);
    }
}

/// The pieces of `s` between non-overlapping occurrences of `sep`, found
/// left to right.
pub open spec fn split_on(s: Seq<u8>, sep: Seq<u8>) -> Seq<Seq<u8>>
    decreases s.len(),
{
    match find_from(s, sep, 0) {
        Some(i) => if 0 <= i && i + sep.len() <= s.len() && sep.len() > 0 {
            seq![s.subrange(0, i)] + split_on(s.subrange(i + sep.len(), s.len() as int), sep)
        } else {
            seq![s]
        },
        None => seq![s],
    }
}

/// What comes before and after the first `sep` in `s`.
pub open spec fn split_once(s: Seq<u8>, sep: Seq<u8>) -> Option<(Seq<u8>, Seq<u8>)> {
    match find_from(s, sep, 0) {
        Some(i) => Some((s.subrange(0, i), s.subrange(i + sep.len(), s.len() as int))),
        None => None,
    }
}

/// Splits `s` at the first `sep`.
pub fn split_once_at(s: &Vec<u8>, sep: &Vec<u8>) -> (r: Option<(Vec<u8>, Vec<u8>)>)
    ensures
        match r {
            Some((a, b)) => split_once(s@, sep@) == Some((a@, b@)),
            None => split_once(s@, sep@) is None,
        },
{
    match find(s, sep) {
        Some(i) => {
            proof {
                lemma_find_bounds(s@, sep@, 0);
            }
            let n = s.len();
            let a = slice_of(s, 0, i);
            let b = slice_of(s, i + sep.len(), n);
            Some((a, b))
        },
        None => None,
    }
}

/// Splits `s` at every `sep`.
pub fn split_by(s: &Vec<u8>, sep: &Vec<u8>) -> (r: Vec<Vec<u8>>)
    requires
        sep@.len() > 0,
    ensures
        bytes_view(r@) == split_on(s@, sep@),
{
    let mut out: Vec<Vec<u8>> = Vec::new();
    let mut rest = slice_of(s, 0, s.len());
    assert(rest@ =~= s@);
    assert(bytes_view(out@) =~= Seq::<Seq<u8>>::empty());
    assert(bytes_view(out@) + split_on(rest@, sep@) =~= split_on(s@, sep@));
    loop
        invariant
            sep@.len() > 0,
            bytes_view(out@) + split_on(rest@, sep@) == split_on(s@, sep@),
        decreases rest@.len(),
    {
        match find(&rest, sep) {
            Some(i) => {
                proof {
                    lemma_find_bounds(rest@, sep@, 0);
                }
                let n = rest.len();
                let head = slice_of(&rest, 0, i);
                let tail = slice_of(&rest, i + sep.len(), n);
                let ghost old_out = bytes_view(out@);
                proof {
                    assert(split_on(rest@, sep@) == seq![head@] + split_on(tail@, sep@));
                }
                out.push(head);
                proof {
                    assert(bytes_view(out@) =~= old_out.push(head@));
                    assert(old_out.push(head@) + split_on(tail@, sep@) =~= old_out + (seq![head@]
                        + split_on(tail@, sep@)));
                }
                rest = tail;
            },
            None => {
                let ghost old_out = bytes_view(out@);
                proof {
                    assert(split_on(rest@, sep@) == seq![rest@]);
                }
                out.push(rest);
                proof {
                    assert(bytes_view(out@) =~= old_out + seq![rest@]);
                }
                return out;
            },
        }
    }
}

/// Whether two byte strings are equal.
pub fn same_bytes(a: &Vec<u8>, b: &Vec<u8>) -> (r: bool)
    ensures
        r == (a@ == b@),
{
    if a.len() != b.len() {
        return false;
    }
    let mut i: usize = 0;
    while i < a.len()
        invariant
            a@.len() == b@.len(),
            i <= a@.len(),
            forall|k: int| 0 <= k < i ==> #[trigger] a@[k] == b@[k],
        decreases a@.len() - i,
    {
        if a[i] != b[i] {
            return false;
        }
        i = i + 1;
    }
    assert(a@ =~= b@);
    true
}

} // verus!
