//! Paragraph segmentation: text is cut into newline-terminated units, and
//! runs of neighbouring units are grouped into passages of bounded length.
use vstd::prelude::*;
use vstd::string::StringSliceAdditionalSpecFns;
use vstd::utf8::*;

verus! {

broadcast use group_utf8_lib;

/// The byte that ends a line.
pub const NEWLINE: u8 = 10;

/// A text with fewer units than this is returned as one passage.
pub const MIN_UNITS: usize = 5;

/// A window keeps growing while it is shorter than this many bytes.
pub const TARGET_MAX_LEN: usize = 1000;

/// A window drops leading units only while it stays at least this long.
pub const TARGET_MIN_LEN: usize = 500;

/// A contiguous byte range `[start, end)` of a text, with the text it covers.
pub struct Span<'t> {
    pub highlight: &'t str,
    pub start: usize,
    pub end: usize,
}

/// `p` starts a new unit: it follows a newline and is not one itself.
pub open spec fn is_unit_boundary(b: Seq<u8>, p: int) -> bool {
    0 < p < b.len() && b[p - 1] == NEWLINE && b[p] != NEWLINE
}

/// The unit boundaries strictly below `i`, in increasing order.
pub open spec fn boundaries_below(b: Seq<u8>, i: int) -> Seq<int>
    decreases i,
{
    if i <= 1 {
        seq![]
    } else if is_unit_boundary(b, i - 1) {
        boundaries_below(b, i - 1).push(i - 1)
    } else {
        boundaries_below(b, i - 1)
    }
}

/// The offsets that delimit the units of `b`: unit `k` is
/// `[unit_bounds(b)[k], unit_bounds(b)[k + 1])`. An empty text has no unit.
pub open spec fn unit_bounds(b: Seq<u8>) -> Seq<int> {
    if b.len() == 0 {
        seq![0]
    } else {
        seq![0int] + boundaries_below(b, b.len() as int).push(b.len() as int)
    }
}

/// The number of units of `b`.
pub open spec fn unit_count(b: Seq<u8>) -> int {
    unit_bounds(b).len() - 1
}

/// Drops leading units of the window `[s, e)` while it keeps more than one
/// unit and at least `TARGET_MIN_LEN` bytes.
pub open spec fn shrink(bd: Seq<int>, s: int, e: int) -> int
    decreases e - s,
{
    if e - s > 1 && bd[e] - bd[s + 1] >= TARGET_MIN_LEN {
        shrink(bd, s + 1, e)
    } else {
        s
    }
}

/// Where the window after `[s, e)` starts: the shrunk window, or a fresh one
/// at `e` when shrinking cannot bring it under `TARGET_MAX_LEN`.
pub open spec fn next_start(bd: Seq<int>, s: int, e: int) -> int {
    let s2 = shrink(bd, s, e);
    if bd[e] - bd[s2] >= TARGET_MAX_LEN {
        e
    } else {
        s2
    }
}

/// Extends the window `[s, e)` by whole units while it is shorter than
/// `TARGET_MAX_LEN` and units are left.
pub open spec fn grow(bd: Seq<int>, s: int, e: int) -> int
    decreases bd.len() - e,
{
    if e < bd.len() - 1 && bd[e] - bd[s] < TARGET_MAX_LEN {
        grow(bd, s, e + 1)
    } else {
        e
    }
}

/// The windows, as unit index pairs, that follow the window `[s, e)`; at most
/// `fuel` of them.
pub open spec fn windows(bd: Seq<int>, s: int, e: int, fuel: nat) -> Seq<(int, int)>
    decreases fuel,
{
    if fuel == 0 || e >= bd.len() - 1 {
        seq![]
    } else {
        let s2 = next_start(bd, s, e);
        let e2 = grow(bd, s2, e);
        seq![(s2, e2)] + windows(bd, s2, e2, (fuel - 1) as nat)
    }
}

/// The passages of a text as byte ranges.
pub open spec fn passage_ranges(b: Seq<u8>) -> Seq<(int, int)> {
    let bd = unit_bounds(b);
    if unit_count(b) < MIN_UNITS {
        seq![(0, b.len() as int)]
    } else {
        windows(bd, 0, 0, unit_count(b) as nat).map_values(|w: (int, int)| (bd[w.0], bd[w.1]))
    }
}

/// The bytes that `str::get(start..end)` yields, or nothing where it yields `None`.
pub open spec fn highlight_bytes(b: Seq<u8>, start: int, end: int) -> Seq<u8> {
    if 0 <= start <= end <= b.len() && is_char_boundary(b, start) && is_char_boundary(b, end) {
        b.subrange(start, end)
    } else {
        seq![]
    }
}

/// The span's highlight is what it covers of `text`.
pub open spec fn covers(text: &str, s: Span) -> bool {
    s.highlight.spec_bytes() == highlight_bytes(text.spec_bytes(), s.start as int, s.end as int)
}

/// The byte ranges of the spans.
pub open spec fn ranges_of(spans: Seq<Span>) -> Seq<(int, int)> {
    spans.map_values(|s: Span| (s.start as int, s.end as int))
}

proof fn lemma_prefix_boundary(b: Seq<u8>, s: int, e: int)
    requires
        valid_utf8(b),
        0 <= s <= e <= b.len(),
        is_char_boundary(b, s),
        is_char_boundary(b, e),
    ensures
        is_char_boundary(b.subrange(0, e), s),
{
    let p = b.subrange(0, e);
    assert(valid_utf8(p));
    if s == 0 {
    } else if s == e {
        assert(is_char_boundary(p, p.len() as int));
    } else {
        assert(p[s] == b[s]);
        assert(is_char_boundary(b, s) <==> !is_continuation_byte(b[s]));
        assert(is_char_boundary(p, s) <==> !is_continuation_byte(p[s]));
    }
}

/// In valid UTF-8, the byte after an ASCII byte starts a character.
proof fn lemma_after_ascii(b: Seq<u8>, p: int)
    requires
        valid_utf8(b),
        0 < p <= b.len(),
        b[p - 1] <= 0x7f,
    ensures
        is_char_boundary(b, p),
    decreases b.len(),
{
    let l = length_of_first_scalar(b);
    let rest = pop_first_scalar(b);
    assert(valid_first_scalar(b));
    assert(valid_utf8(rest));
    assert(1 <= l <= b.len());
    if p - 1 == 0 {
        assert(l == 1);
        assert(is_char_boundary(rest, 0));
    } else if p - 1 < l {
        assert(is_continuation_byte(b[p - 1]));
    } else {
        assert(rest.len() == b.len() - l);
        assert(rest[p - l - 1] == b[p - 1]);
        lemma_after_ascii(rest, p - l);
    }
}

/// Every unit bound of a valid UTF-8 text starts a character (or ends the text).
proof fn lemma_unit_bounds_on_chars(b: Seq<u8>)
    requires
        valid_utf8(b),
    ensures
        forall|k: int|
            0 <= k < unit_bounds(b).len() ==> is_char_boundary(b, #[trigger] unit_bounds(b)[k]),
{
    lemma_unit_bounds(b);
    let bd = unit_bounds(b);
    assert forall|k: int| 0 <= k < bd.len() implies is_char_boundary(b, #[trigger] bd[k]) by {
        if k == 0 {
        } else if k == bd.len() - 1 {
            assert(is_char_boundary(b, b.len() as int));
        } else {
            assert(is_unit_boundary(b, bd[k]));
            lemma_after_ascii(b, bd[k]);
        }
    }
}

/// The part of `text` from byte `start` to byte `end`, or `""` where that is
/// out of range or not on character boundaries.
fn substring_or_empty<'t>(text: &'t str, start: usize, end: usize) -> (r: &'t str)
    ensures
        r.spec_bytes() == highlight_bytes(text.spec_bytes(), start as int, end as int),
{
    let ghost b = text.spec_bytes();
    proof {
        encode_utf8_valid_utf8(text@);
    }
    let len = text.as_bytes().len();
    let start_ok = text.is_char_boundary(start);
    let end_ok = text.is_char_boundary(end);
    if start <= end && end <= len && start_ok && end_ok {
        let (pre, _) = text.split_at(end);
        proof {
            lemma_prefix_boundary(b, start as int, end as int);
        }
        let (_, mid) = pre.split_at(start);
        assert(mid.spec_bytes() =~= b.subrange(start as int, end as int));
        mid
    } else {
        let empty = "";
        proof {
            reveal_strlit("");
        }
        assert(empty@.len() == 0);
        assert(empty.spec_bytes() =~= seq![]);
        empty
    }
}

proof fn lemma_boundaries_below(b: Seq<u8>, i: int)
    ensures
        forall|k: int|
            0 <= k < boundaries_below(b, i).len() ==> 1 <= #[trigger] boundaries_below(b, i)[k]
                < i && is_unit_boundary(b, boundaries_below(b, i)[k]),
        forall|j: int, k: int|
            0 <= j < k < boundaries_below(b, i).len() ==> boundaries_below(b, i)[j]
                < boundaries_below(b, i)[k],
    decreases i,
{
    if i > 1 {
        lemma_boundaries_below(b, i - 1);
        let p = boundaries_below(b, i - 1);
        if is_unit_boundary(b, i - 1) {
            assert(boundaries_below(b, i) == p.push(i - 1));
        } else {
            assert(boundaries_below(b, i) == p);
        }
    }
}

/// Unit bounds start at 0, end at the text's length, and strictly increase.
proof fn lemma_unit_bounds(b: Seq<u8>)
    ensures
        unit_bounds(b).len() >= 1,
        unit_bounds(b)[0] == 0,
        unit_bounds(b).last() == b.len(),
        forall|j: int, k: int|
            0 <= j < k < unit_bounds(b).len() ==> unit_bounds(b)[j] < unit_bounds(b)[k],
        forall|k: int|
            0 < k < unit_bounds(b).len() - 1 ==> is_unit_boundary(b, #[trigger] unit_bounds(b)[k]),
{
    if b.len() > 0 {
        lemma_boundaries_below(b, b.len() as int);
        let c = boundaries_below(b, b.len() as int);
        let bd = unit_bounds(b);
        assert(bd.len() == c.len() + 2);
        assert forall|k: int| 0 < k < bd.len() - 1 implies bd[k] == c[k - 1] && 1 <= #[trigger] bd[k]
            < b.len() && is_unit_boundary(b, bd[k]) by {}
        assert forall|j: int, k: int| 0 <= j < k < bd.len() implies bd[j] < bd[k] by {
            if 0 < j && k < bd.len() - 1 {
                assert(c[j - 1] < c[k - 1]);
            }
        }
    }
}

pub open spec fn increasing(bd: Seq<int>) -> bool {
    forall|j: int, k: int| 0 <= j < k < bd.len() ==> bd[j] < bd[k]
}

proof fn lemma_shrink(bd: Seq<int>, s: int, e: int)
    requires
        0 <= s <= e < bd.len(),
    ensures
        s <= shrink(bd, s, e) <= e,
        e - s > 1 && bd[e] - bd[s + 1] >= TARGET_MIN_LEN ==> shrink(bd, s, e) > s,
    decreases e - s,
{
    if e - s > 1 && bd[e] - bd[s + 1] >= TARGET_MIN_LEN {
        lemma_shrink(bd, s + 1, e);
    }
}

proof fn lemma_grow(bd: Seq<int>, s: int, e: int)
    requires
        0 <= s <= e < bd.len(),
    ensures
        e <= grow(bd, s, e) < bd.len(),
        grow(bd, s, e) == bd.len() - 1 || bd[grow(bd, s, e)] - bd[s] >= TARGET_MAX_LEN,
        e < bd.len() - 1 && bd[e] - bd[s] < TARGET_MAX_LEN ==> grow(bd, s, e) > e,
    decreases bd.len() - e,
{
    if e < bd.len() - 1 && bd[e] - bd[s] < TARGET_MAX_LEN {
        lemma_grow(bd, s, e + 1);
    }
}

/// The shape of the windows that follow a window `[s, e)` that was emitted
/// (or the empty window at the start).
proof fn lemma_windows(bd: Seq<int>, s: int, e: int, fuel: nat)
    requires
        increasing(bd),
        0 <= s <= e < bd.len(),
        fuel >= bd.len() - 1 - e,
        (s == 0 && e == 0) || e == bd.len() - 1 || bd[e] - bd[s] >= TARGET_MAX_LEN,
    ensures
        ({
            let w = windows(bd, s, e, fuel);
            &&& e == bd.len() - 1 ==> w.len() == 0
            &&& e < bd.len() - 1 ==> {
                &&& w.len() >= 1
                &&& w.last().1 == bd.len() - 1
                &&& w[0].0 <= e < w[0].1
                &&& (e == 0 ==> w[0].0 == 0)
                &&& (e > 0 ==> s < w[0].0)
            }
            &&& forall|k: int| 0 <= k < w.len() ==> 0 <= #[trigger] w[k].0 < w[k].1 < bd.len()
            &&& forall|k: int|
                0 <= k < w.len() - 1 ==> {
                    &&& #[trigger] w[k].0 < w[k + 1].0
                    &&& w[k].1 < w[k + 1].1
                    &&& w[k + 1].0 <= w[k].1
                }
        }),
    decreases fuel,
{
    let n = bd.len() - 1;
    if fuel > 0 && e < n {
        let s1 = shrink(bd, s, e);
        lemma_shrink(bd, s, e);
        let s2 = next_start(bd, s, e);
        assert(bd[e] - bd[s2] < TARGET_MAX_LEN);
        lemma_grow(bd, s2, e);
        let e2 = grow(bd, s2, e);
        if e > 0 {
            assert(bd[e] - bd[s] >= TARGET_MAX_LEN);
            assert(e > s);
        }
        lemma_windows(bd, s2, e2, (fuel - 1) as nat);
        let rest = windows(bd, s2, e2, (fuel - 1) as nat);
        let w = windows(bd, s, e, fuel);
        assert(w == seq![(s2, e2)] + rest);
        assert forall|k: int| 0 <= k < w.len() - 1 implies {
            &&& #[trigger] w[k].0 < w[k + 1].0
            &&& w[k].1 < w[k + 1].1
            &&& w[k + 1].0 <= w[k].1
        } by {
            if k > 0 {
                assert(w[k] == rest[k - 1]);
                assert(w[k + 1] == rest[k]);
            }
        }
        assert forall|k: int| 0 <= k < w.len() implies 0 <= #[trigger] w[k].0 < w[k].1 < bd.len() by {
            if k > 0 {
                assert(w[k] == rest[k - 1]);
            }
        }
    }
}

/// Some range of `r` holds `p`.
pub open spec fn covered_by(r: Seq<(int, int)>, p: int) -> bool {
    exists|k: int| 0 <= k < r.len() && r[k].0 <= p < #[trigger] r[k].1
}

/// Consecutive ranges that start at 0, leave no gap between them and end at
/// `len` cover every position below `len`.
proof fn lemma_ranges_cover(r: Seq<(int, int)>, len: int, p: int)
    requires
        r.len() >= 1,
        r[0].0 == 0,
        r.last().1 == len,
        forall|k: int| 0 <= k < r.len() - 1 ==> #[trigger] r[k + 1].0 <= r[k].1,
        0 <= p < len,
    ensures
        covered_by(r, p),
    decreases r.len(),
{
    let last = r.len() - 1;
    if p >= r[last].0 {
        assert(r[last].0 <= p < r[last].1);
    } else {
        let q = r.drop_last();
        assert(last >= 1);
        let j = last - 1;
        assert(r[j + 1].0 <= r[j].1);
        assert forall|k: int| 0 <= k < q.len() - 1 implies #[trigger] q[k + 1].0 <= q[k].1 by {
            assert(r[k + 1].0 <= r[k].1);
        }
        lemma_ranges_cover(q, r[last - 1].1, p);
        let k = choose|k: int| 0 <= k < q.len() && q[k].0 <= p < #[trigger] q[k].1;
        assert(r[k].0 <= p < r[k].1);
    }
}

/// Where a text has at least `MIN_UNITS` units, its passages start at offset
/// 0 and the last one ends at the end of the text; the starts strictly
/// increase, and so do the ends; each passage is non-empty and starts no later
/// than the previous one ends, so that together they cover every byte.
pub proof fn lemma_passages_cover(b: Seq<u8>)
    requires
        unit_count(b) >= MIN_UNITS,
    ensures
        ({
            let r = passage_ranges(b);
            &&& r.len() >= 1
            &&& r[0].0 == 0
            &&& r.last().1 == b.len()
            &&& forall|k: int| 0 <= k < r.len() ==> #[trigger] r[k].0 < r[k].1
            &&& forall|k: int|
                0 <= k < r.len() - 1 ==> {
                    &&& #[trigger] r[k].0 < r[k + 1].0
                    &&& r[k].1 < r[k + 1].1
                    &&& r[k + 1].0 <= r[k].1
                }
            &&& forall|p: int| 0 <= p < b.len() ==> #[trigger] covered_by(r, p)
        }),
{
    let bd = unit_bounds(b);
    lemma_unit_bounds(b);
    let n = unit_count(b);
    lemma_windows(bd, 0, 0, n as nat);
    let w = windows(bd, 0, 0, n as nat);
    let r = passage_ranges(b);
    assert(r.len() == w.len());
    assert forall|k: int| 0 <= k < r.len() implies #[trigger] r[k] == (bd[w[k].0], bd[w[k].1]) by {}
    assert forall|k: int| 0 <= k < r.len() implies #[trigger] r[k].0 < r[k].1 by {
        assert(r[k] == (bd[w[k].0], bd[w[k].1]));
    }
    assert forall|k: int| 0 <= k < r.len() - 1 implies {
        &&& #[trigger] r[k].0 < r[k + 1].0
        &&& r[k].1 < r[k + 1].1
        &&& r[k + 1].0 <= r[k].1
    } by {
        assert(r[k] == (bd[w[k].0], bd[w[k].1]));
        assert(r[k + 1] == (bd[w[k + 1].0], bd[w[k + 1].1]));
        if w[k + 1].0 < w[k].1 {
            assert(bd[w[k + 1].0] < bd[w[k].1]);
        }
    }
    assert(r[0] == (bd[w[0].0], bd[w[0].1]));
    assert(r.last() == (bd[w.last().0], bd[w.last().1]));
    assert forall|p: int| 0 <= p < b.len() implies #[trigger] covered_by(r, p) by {
        assert forall|k: int| 0 <= k < r.len() - 1 implies #[trigger] r[k + 1].0 <= r[k].1 by {
            assert(r[k] == (bd[w[k].0], bd[w[k].1]));
            assert(r[k + 1] == (bd[w[k + 1].0], bd[w[k + 1].1]));
            if w[k + 1].0 < w[k].1 {
                assert(bd[w[k + 1].0] < bd[w[k].1]);
            }
        }
        lemma_ranges_cover(r, b.len() as int, p);
    }
}

/// Where a text has fewer than `MIN_UNITS` units, it is one passage that spans
/// all of it.
pub proof fn lemma_short_text_is_one_passage(b: Seq<u8>)
    requires
        unit_count(b) < MIN_UNITS,
    ensures
        passage_ranges(b) == seq![(0int, b.len() as int)],
{
}

/// The offsets that delimit the units of `b`, as `unit_bounds` gives them.
fn unit_bounds_of(b: &[u8]) -> (r: Vec<usize>)
    ensures
        r@.len() == unit_bounds(b@).len(),
        forall|k: int| 0 <= k < r@.len() ==> r@[k] as int == #[trigger] unit_bounds(b@)[k],
{
    let mut r: Vec<usize> = Vec::new();
    r.push(0);
    let n = b.len();
    if n == 0 {
        return r;
    }
    let mut i: usize = 1;
    while i < n
        invariant
            1 <= i <= n,
            n == b@.len(),
            r@.len() == 1 + boundaries_below(b@, i as int).len(),
            r@[0] == 0,
            forall|k: int|
                0 <= k < boundaries_below(b@, i as int).len() ==> r@[k + 1] as int
                    == #[trigger] boundaries_below(b@, i as int)[k],
        decreases n - i,
    {
        if b[i - 1] == NEWLINE && b[i] != NEWLINE {
            r.push(i);
        }
        i += 1;
    }
    r.push(n);
    let ghost bd = unit_bounds(b@);
    assert forall|k: int| 0 <= k < r@.len() implies r@[k] as int == #[trigger] bd[k] by {
        if 0 < k < r@.len() - 1 {
            assert(r@[k] as int == boundaries_below(b@, n as int)[k - 1]);
        }
    }
    r
}

/// The smallest start among `spans`, or 0 where there is none.
pub open spec fn min_start(spans: Seq<Span>) -> int
    decreases spans.len(),
{
    if spans.len() == 0 {
        0
    } else if spans.len() == 1 {
        spans[0].start as int
    } else {
        let m = min_start(spans.drop_last());
        if (spans.last().start as int) < m {
            spans.last().start as int
        } else {
            m
        }
    }
}

/// The largest end among `spans`, or 0 where there is none.
pub open spec fn max_end(spans: Seq<Span>) -> int
    decreases spans.len(),
{
    if spans.len() == 0 {
        0
    } else {
        let m = max_end(spans.drop_last());
        if (spans.last().end as int) > m {
            spans.last().end as int
        } else {
            m
        }
    }
}

impl<'a> Span<'a> {
    /// The span of `text` from the smallest start to the largest end
    /// among `spans` (both 0 where `spans` is empty).
    pub fn concat<'t>(text: &'t str, spans: &[Span<'a>]) -> (r: Span<'t>)
        ensures
            r.start == min_start(spans@),
            r.end == max_end(spans@),
            covers(text, r),
    {
        let mut start: usize = 0;
        let mut end: usize = 0;
        let mut i: usize = 0;
        while i < spans.len()
            invariant
                i <= spans@.len(),
                start == min_start(spans@.take(i as int)),
                end == max_end(spans@.take(i as int)),
            decreases spans@.len() - i,
        {
            assert(spans@.take(i as int + 1).drop_last() =~= spans@.take(i as int));
            let s = spans[i].start;
            let e = spans[i].end;
            if i == 0 || s < start {
                start = s;
            }
            if e > end {
                end = e;
            }
            i += 1;
        }
        assert(spans@.take(i as int) =~= spans@);
        Span::between(text, start, end)
    }
}

impl<'t> Span<'t> {
    /// The span of `text` from byte `start` to byte `end`.
    fn between(text: &'t str, start: usize, end: usize) -> (r: Span<'t>)
        ensures
            r.start == start,
            r.end == end,
            covers(text, r),
    {
        Span { highlight: substring_or_empty(text, start, end), start, end }
    }
}

/// Splits `text` into passages.
///
/// The text is cut into units, each a run of non-newline bytes followed by its
/// newlines. A text with fewer than `MIN_UNITS` units is one passage. Otherwise
/// a window of whole units slides over the text: it grows while it is shorter
/// than `TARGET_MAX_LEN` bytes, each window is one passage, and the next window
/// keeps the tail of the last one, dropping leading units while it stays at
/// least `TARGET_MIN_LEN` long (or starts afresh where it cannot get under
/// `TARGET_MAX_LEN` that way).
pub fn paragraphize(text: &str) -> (r: Vec<Span<'_>>)
    ensures
        r@.len() >= 1,
        ranges_of(r@) == passage_ranges(text.spec_bytes()),
        forall|k: int|
            0 <= k < r@.len() ==> (#[trigger] r@[k]).highlight.spec_bytes() == text.spec_bytes().subrange(
                r@[k].start as int,
                r@[k].end as int,
            ),
{
    let bytes = text.as_bytes();
    let ghost b = text.spec_bytes();
    let bd = unit_bounds_of(bytes);
    let ghost sb = unit_bounds(b);
    proof {
        lemma_unit_bounds(b);
        encode_utf8_valid_utf8(text@);
        lemma_unit_bounds_on_chars(b);
    }
    let n = bd.len() - 1;
    if n < MIN_UNITS {
        let whole = Span { highlight: text, start: 0, end: bytes.len() };
        proof {
            assert(is_char_boundary(b, 0));
            assert(is_char_boundary(b, b.len() as int));
            assert(b.subrange(0, b.len() as int) =~= b);
        }
        let r = vec![whole];
        assert(ranges_of(r@) =~= passage_ranges(b));
        return r;
    }
    let mut paragraphs: Vec<Span<'_>> = Vec::new();
    let mut start: usize = 0;
    let mut end: usize = 0;
    let ghost mut fuel: nat = n as nat;
    let ghost mut done: Seq<(int, int)> = seq![];
    while end < n
        invariant
            n == bd@.len() - 1,
            bd@.len() == sb.len(),
            forall|k: int| 0 <= k < bd@.len() ==> #[trigger] bd@[k] as int == sb[k],
                bd@.len() == sb.len(),
            forall|j: int, k: int| 0 <= j < k < sb.len() ==> sb[j] < sb[k],
            sb.last() == b.len(),
            b == text.spec_bytes(),
            start <= end <= n,
            fuel >= n - end,
            done + windows(sb, start as int, end as int, fuel) == windows(sb, 0, 0, n as nat),
            paragraphs@.len() == done.len(),
            forall|k: int| 0 <= k < sb.len() ==> is_char_boundary(b, #[trigger] sb[k]),
            forall|k: int|
                0 <= k < done.len() ==> (#[trigger] paragraphs@[k]).start == sb[done[k].0]
                    && paragraphs@[k].end == sb[done[k].1] && paragraphs@[k].start
                    <= paragraphs@[k].end && paragraphs@[k].highlight.spec_bytes() == b.subrange(
                    paragraphs@[k].start as int,
                    paragraphs@[k].end as int,
                ),
        decreases n - end,
    {
        let ghost s0 = start as int;
        let ghost e0 = end as int;
        let ghost s2 = next_start(sb, s0, e0);
        let ghost e2 = grow(sb, s2, e0);
        while end - start > 1 && bd[end] - bd[start + 1] >= TARGET_MIN_LEN
            invariant
                n == bd@.len() - 1,
                forall|k: int| 0 <= k < bd@.len() ==> #[trigger] bd@[k] as int == sb[k],
                bd@.len() == sb.len(),
                forall|j: int, k: int| 0 <= j < k < sb.len() ==> sb[j] < sb[k],
                start <= end < n,
                end == e0,
                shrink(sb, start as int, e0) == shrink(sb, s0, e0),
            decreases end - start,
        {
            start += 1;
        }
        if bd[end] - bd[start] >= TARGET_MAX_LEN {
            start = end;
        }
        assert(start == s2);
        while end < n && bd[end] - bd[start] < TARGET_MAX_LEN
            invariant
                n == bd@.len() - 1,
                forall|k: int| 0 <= k < bd@.len() ==> #[trigger] bd@[k] as int == sb[k],
                bd@.len() == sb.len(),
                forall|j: int, k: int| 0 <= j < k < sb.len() ==> sb[j] < sb[k],
                start <= e0 <= end <= n,
                start == s2,
                grow(sb, s2, end as int) == e2,
            decreases n - end,
        {
            end += 1;
        }
        assert(end == e2);
        assert(end > e0);
        assert(sb[s2] < sb[e2]);
        assert(is_char_boundary(b, sb[s2]) && is_char_boundary(b, sb[e2]));
        paragraphs.push(Span::between(text, bd[start], bd[end]));
        proof {
            assert(windows(sb, s0, e0, fuel) == seq![(s2, e2)] + windows(sb, s2, e2, (fuel - 1) as nat));
            done = done.push((s2, e2));
            fuel = (fuel - 1) as nat;
            assert(done + windows(sb, s2, e2, fuel) =~= windows(sb, 0, 0, n as nat));
        }
    }
    assert(done =~= windows(sb, 0, 0, n as nat));
    assert(ranges_of(paragraphs@) =~= passage_ranges(b));
    proof {
        lemma_passages_cover(b);
    }
    paragraphs
}

} // verus!
