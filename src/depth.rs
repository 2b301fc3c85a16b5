//! Nesting depth of chunks.
//!
//! Chunks are taken in order of start line, longer first among equal starts,
//! input order among equal spans. A chunk's depth is the number of chunks taken
//! before it that are still open on its start line, that is, whose last line
//! comes strictly after that start line. A chunk ending on the very line where
//! the next begins is a closed sibling, not an enclosing parent.
use vstd::prelude::*;
use crate::chunk::{IndexedChunkMeta, Span, spans_of};

verus! {

/// Whether `a` adds to the depth of a chunk with span `b`: `a` comes first in
/// the order above (or has the same span) and is still open on `b`'s start line.
pub open spec fn counts_toward(a: Span, b: Span) -> bool {
    a.line_end > b.line_start && (a.line_start < b.line_start || (a.line_start == b.line_start
        && a.line_end >= b.line_end))
}

/// How many of `spans` add to the depth of `b`, `b`'s own occurrences included.
pub open spec fn count_toward(spans: Seq<Span>, b: Span) -> nat
    decreases spans.len(),
{
    if spans.len() == 0 {
        0
    } else {
        count_toward(spans.drop_last(), b) + if counts_toward(spans.last(), b) {
            1nat
        } else {
            0nat
        }
    }
}

/// The depth of span `b` among `spans`. Chunks that share a span share one
/// depth: that of the last of them in order, which counts the others as open
/// ancestors unless the span is a single line.
pub open spec fn span_depth(spans: Seq<Span>, b: Span) -> int {
    count_toward(spans, b) - if b.line_end > b.line_start {
        1int
    } else {
        0int
    }
}

/// Whether `a` textually encloses `b` and is still open after `b`'s first line.
pub open spec fn encloses(a: Span, b: Span) -> bool {
    a != b && a.line_start <= b.line_start && b.line_end <= a.line_end && b.line_start
        < a.line_end
}

/// How many of `spans` enclose `b`.
pub open spec fn enclosing_count(spans: Seq<Span>, b: Span) -> nat
    decreases spans.len(),
{
    if spans.len() == 0 {
        0
    } else {
        enclosing_count(spans.drop_last(), b) + if encloses(spans.last(), b) {
            1nat
        } else {
            0nat
        }
    }
}

/// Every two spans are nested, disjoint, or meet on a boundary line.
pub open spec fn properly_nested(spans: Seq<Span>) -> bool {
    forall|i: int, j: int|
        0 <= i < spans.len() && 0 <= j < spans.len() ==> {
            let a = #[trigger] spans[i];
            let b = #[trigger] spans[j];
            (a.line_start <= b.line_start && b.line_end <= a.line_end) || (b.line_start
                <= a.line_start && a.line_end <= b.line_end) || a.line_end <= b.line_start
                || b.line_end <= a.line_start
        }
}

pub open spec fn spans_valid(spans: Seq<Span>) -> bool {
    forall|i: int| 0 <= i < spans.len() ==> (#[trigger] spans[i]).valid()
}

/// Builds the map of a list of distinct keys and their values.
pub open spec fn map_of(keys: Seq<Span>, depths: Seq<usize>) -> Map<(usize, usize), usize>
    decreases keys.len(),
{
    if keys.len() == 0 || depths.len() == 0 {
        Map::empty()
    } else {
        map_of(keys.drop_last(), depths.drop_last()).insert(keys.last().key(), depths.last())
    }
}

/// The depth of each distinct span, keyed by `(line_start, line_end)`.
pub struct DepthMap {
    keys: Vec<Span>,
    depths: Vec<usize>,
}

impl View for DepthMap {
    type V = Map<(usize, usize), usize>;

    closed spec fn view(&self) -> Map<(usize, usize), usize> {
        map_of(self.keys@, self.depths@)
    }
}

proof fn lemma_count_toward_le(spans: Seq<Span>, b: Span)
    ensures
        count_toward(spans, b) <= spans.len(),
    decreases spans.len(),
{
    if spans.len() > 0 {
        lemma_count_toward_le(spans.drop_last(), b);
    }
}

proof fn lemma_map_of_dom(keys: Seq<Span>, depths: Seq<usize>, k: (usize, usize))
    requires
        keys.len() == depths.len(),
    ensures
        map_of(keys, depths).contains_key(k) <==> exists|i: int|
            0 <= i < keys.len() && (#[trigger] keys[i]).key() == k,
    decreases keys.len(),
{
    if keys.len() > 0 {
        let kl = keys.drop_last();
        lemma_map_of_dom(kl, depths.drop_last(), k);
        if exists|i: int| 0 <= i < keys.len() && (#[trigger] keys[i]).key() == k {
            let i = choose|i: int| 0 <= i < keys.len() && (#[trigger] keys[i]).key() == k;
            if i < keys.len() - 1 {
                assert(kl[i] == keys[i]);
            }
        }
        if exists|i: int| 0 <= i < kl.len() && (#[trigger] kl[i]).key() == k {
            let i = choose|i: int| 0 <= i < kl.len() && (#[trigger] kl[i]).key() == k;
            assert(keys[i] == kl[i]);
        }
    }
}

proof fn lemma_map_of_at(keys: Seq<Span>, depths: Seq<usize>, i: int)
    requires
        keys.len() == depths.len(),
        0 <= i < keys.len(),
        forall|i: int, j: int|
            0 <= i < j < keys.len() ==> (#[trigger] keys[i]).key() != (#[trigger] keys[j]).key(),
    ensures
        map_of(keys, depths).contains_key(keys[i].key()),
        map_of(keys, depths)[keys[i].key()] == depths[i],
    decreases keys.len(),
{
    if i < keys.len() - 1 {
        let kl = keys.drop_last();
        assert(kl[i] == keys[i]);
        lemma_map_of_at(kl, depths.drop_last(), i);
        assert(keys[i].key() != keys[keys.len() - 1].key());
    }
}

impl DepthMap {
    /// Keys are distinct and in sweep order.
    pub closed spec fn wf(&self) -> bool {
        &&& self.keys.len() == self.depths.len()
        &&& forall|i: int, j: int|
            0 <= i < j < self.keys.len() ==> (#[trigger] self.keys[i]).key() != (
            #[trigger] self.keys[j]).key()
        &&& forall|i: int, j: int|
            0 <= i < j < self.keys.len() ==> taken_before(
                #[trigger] self.keys[i],
                #[trigger] self.keys[j],
            )
    }

    /// The depth recorded for a span, if any.
    pub fn get(&self, line_start: usize, line_end: usize) -> (r: Option<usize>)
        requires
            self.wf(),
        ensures
            r == (if self@.contains_key((line_start, line_end)) {
                Some(self@[(line_start, line_end)])
            } else {
                None::<usize>
            }),
    {
        let b = Span { line_start, line_end };
        proof {
            lemma_map_of_dom(self.keys@, self.depths@, b.key());
        }
        let mut lo: usize = 0;
        let mut hi: usize = self.keys.len();
        while lo < hi
            invariant
                self.wf(),
                b == (Span { line_start, line_end }),
                lo <= hi <= self.keys@.len(),
                forall|j: int| 0 <= j < lo ==> (#[trigger] self.keys@[j]) != b,
                forall|j: int| hi <= j < self.keys@.len() ==> (#[trigger] self.keys@[j]) != b,
            decreases hi - lo,
        {
            let mid = lo + (hi - lo) / 2;
            let km = self.keys[mid];
            if km == b {
                proof {
                    lemma_map_of_at(self.keys@, self.depths@, mid as int);
                }
                return Some(self.depths[mid]);
            }
            if km.line_start < line_start || (km.line_start == line_start && km.line_end
                >= line_end) {
                proof {
                    assert forall|j: int| 0 <= j < mid + 1 implies (#[trigger] self.keys@[j]) != b by {
                        if j < mid {
                            assert(taken_before(self.keys@[j], km));
                        }
                    }
                }
                lo = mid + 1;
            } else {
                proof {
                    assert forall|j: int| mid <= j < self.keys@.len() implies (
                    #[trigger] self.keys@[j]) != b by {
                        if j > mid {
                            assert(taken_before(km, self.keys@[j]));
                        }
                    }
                }
                hi = mid;
            }
        }
        proof {
            assert forall|j: int| 0 <= j < self.keys@.len() implies (#[trigger] self.keys@[j]).key()
                != b.key() by {
                assert(self.keys@[j] != b);
            }
        }
        None
    }

    /// The number of distinct spans.
    pub fn len(&self) -> (r: usize)
        requires
            self.wf(),
        ensures
            r == self@.dom().len(),
    {
        proof {
            lemma_map_of_len(self.keys@, self.depths@);
        }
        self.keys.len()
    }
}

proof fn lemma_map_of_len(keys: Seq<Span>, depths: Seq<usize>)
    requires
        keys.len() == depths.len(),
        forall|i: int, j: int|
            0 <= i < j < keys.len() ==> (#[trigger] keys[i]).key() != (#[trigger] keys[j]).key(),
    ensures
        map_of(keys, depths).dom().finite(),
        map_of(keys, depths).dom().len() == keys.len(),
    decreases keys.len(),
{
    if keys.len() > 0 {
        let kl = keys.drop_last();
        lemma_map_of_len(kl, depths.drop_last());
        lemma_map_of_dom(kl, depths.drop_last(), keys.last().key());
        if map_of(kl, depths.drop_last()).contains_key(keys.last().key()) {
            let i = choose|i: int| 0 <= i < kl.len() && (#[trigger] kl[i]).key() == keys.last().key();
            assert(keys[i] == kl[i]);
        }
    }
}

proof fn lemma_count_toward_pos(spans: Seq<Span>, b: Span, i: int)
    requires
        0 <= i < spans.len(),
        counts_toward(spans[i], b),
    ensures
        count_toward(spans, b) >= 1,
    decreases spans.len(),
{
    if i < spans.len() - 1 {
        assert(spans.drop_last()[i] == spans[i]);
        lemma_count_toward_pos(spans.drop_last(), b, i);
    }
}

proof fn lemma_count_toward_lt(spans: Seq<Span>, b: Span, i: int)
    requires
        0 <= i < spans.len(),
        !counts_toward(spans[i], b),
    ensures
        count_toward(spans, b) < spans.len(),
    decreases spans.len(),
{
    if i < spans.len() - 1 {
        assert(spans.drop_last()[i] == spans[i]);
        lemma_count_toward_lt(spans.drop_last(), b, i);
    } else {
        lemma_count_toward_le(spans.drop_last(), b);
    }
}

proof fn lemma_depth_lt_len(spans: Seq<Span>, i: int)
    requires
        0 <= i < spans.len(),
    ensures
        0 <= span_depth(spans, spans[i]) < spans.len(),
{
    let b = spans[i];
    if counts_toward(b, b) {
        lemma_count_toward_le(spans, b);
        lemma_count_toward_pos(spans, b, i);
    } else {
        lemma_count_toward_lt(spans, b, i);
    }
}

/// Computes the depth of every distinct span among the chunks.
pub fn calculate_chunk_depths(all_chunks: &[IndexedChunkMeta]) -> (r: DepthMap)
    ensures
        r.wf(),
        forall|k: (usize, usize)|
            r@.contains_key(k) <==> exists|i: int|
                0 <= i < all_chunks@.len() && (#[trigger] all_chunks@[i]).span.key() == k,
        forall|k: (usize, usize)| #[trigger]
            r@.contains_key(k) ==> r@[k] == span_depth(
                spans_of(all_chunks@),
                Span { line_start: k.0, line_end: k.1 },
            ),
{
    let spans = crate::chunk::chunk_spans(all_chunks);
    let r = sweep_table(&spans);
    proof {
        assert forall|k: (usize, usize)|
            r@.contains_key(k) <==> exists|i: int|
                0 <= i < all_chunks@.len() && (#[trigger] all_chunks@[i]).span.key() == k by {
            lemma_map_of_dom(r.keys@, r.depths@, k);
            if r@.contains_key(k) {
                let x = choose|x: int| 0 <= x < r.keys@.len() && (#[trigger] r.keys@[x]).key() == k;
                assert(spans@.contains(r.keys@[x]));
                let j = choose|j: int| 0 <= j < spans@.len() && spans@[j] == r.keys@[x];
                assert(all_chunks@[j].span == spans@[j]);
            }
            if exists|i: int| 0 <= i < all_chunks@.len() && (#[trigger] all_chunks@[i]).span.key() == k {
                let i = choose|i: int| 0 <= i < all_chunks@.len() && (#[trigger] all_chunks@[i]).span.key() == k;
                assert(spans@[i] == all_chunks@[i].span);
                assert(r.keys@.contains(spans@[i]));
                let x = choose|x: int| 0 <= x < r.keys@.len() && r.keys@[x] == spans@[i];
                assert(r.keys@[x].key() == k);
            }
        }
        assert forall|k: (usize, usize)| #[trigger] r@.contains_key(k) implies r@[k] == span_depth(
            spans_of(all_chunks@),
            Span { line_start: k.0, line_end: k.1 },
        ) by {
            lemma_map_of_dom(r.keys@, r.depths@, k);
            let x = choose|x: int| 0 <= x < r.keys@.len() && (#[trigger] r.keys@[x]).key() == k;
            lemma_map_of_at(r.keys@, r.depths@, x);
            assert(r.keys@[x] == Span { line_start: k.0, line_end: k.1 });
        }
    }
    r
}

/// One more than the greatest depth among the first `n` spans, and at least 1.
pub open spec fn width_upto(spans: Seq<Span>, n: int) -> int
    decreases n,
{
    if n <= 0 {
        1
    } else {
        let w = width_upto(spans, n - 1);
        let d = span_depth(spans, spans[n - 1]) + 1;
        if d > w {
            d
        } else {
            w
        }
    }
}

/// The number of rail columns for chunks with these spans.
pub open spec fn rail_width(spans: Seq<Span>) -> int {
    width_upto(spans, spans.len() as int)
}

proof fn lemma_width_upto(spans: Seq<Span>, n: int)
    requires
        0 <= n <= spans.len(),
    ensures
        forall|i: int| 0 <= i < n ==> span_depth(spans, #[trigger] spans[i]) < width_upto(spans, n),
        1 <= width_upto(spans, n),
        n > 0 ==> exists|i: int|
            0 <= i < n && width_upto(spans, n) == span_depth(spans, #[trigger] spans[i]) + 1,
    decreases n,
{
    if n > 0 {
        lemma_width_upto(spans, n - 1);
        lemma_depth_lt_len(spans, n - 1);
        if n == 1 {
            assert(width_upto(spans, n) == span_depth(spans, spans[0]) + 1);
        } else if width_upto(spans, n) == width_upto(spans, n - 1) {
            let i = choose|i: int|
                0 <= i < n - 1 && width_upto(spans, n - 1) == span_depth(spans, #[trigger] spans[i])
                    + 1;
            assert(width_upto(spans, n) == span_depth(spans, spans[i]) + 1);
        }
    }
}

/// The rail width of `spans`, with the depth of each of them.
pub(crate) fn depths_and_width(spans: &Vec<Span>) -> (r: (Vec<usize>, usize))
    ensures
        r.0@.len() == spans@.len(),
        forall|k: int| 0 <= k < spans@.len() ==> r.0@[k] == span_depth(spans@, #[trigger] spans@[k]),
        forall|k: int| 0 <= k < spans@.len() ==> #[trigger] r.0@[k] < r.1,
        r.1 == rail_width(spans@),
{
    let t = sweep_table(spans);
    let mut m: usize = 0;
    let mut k: usize = 0;
    while k < t.depths.len()
        invariant
            t.wf(),
            k <= t.keys@.len(),
            forall|x: int| 0 <= x < k ==> t.depths@[x] <= m,
            k == 0 ==> m == 0,
            k > 0 ==> exists|x: int| 0 <= x < k && t.depths@[x] == m,
        decreases t.depths.len() - k,
    {
        if t.depths[k] > m || k == 0 {
            m = t.depths[k];
        }
        k = k + 1;
    }
    proof {
        lemma_width_upto(spans@, spans@.len() as int);
        if spans@.len() > 0 {
            assert(t.keys@.contains(spans@[0]));
        }
        if k > 0 {
            let x = choose|x: int| 0 <= x < k && t.depths@[x] == m;
            assert(spans@.contains(t.keys@[x]));
            let j = choose|j: int| 0 <= j < spans@.len() && spans@[j] == t.keys@[x];
            lemma_depth_lt_len(spans@, j);
            assert(span_depth(spans@, spans@[j]) < rail_width(spans@));
        }
    }
    let mut ds: Vec<usize> = Vec::new();
    let mut i: usize = 0;
    while i < spans.len()
        invariant
            t.wf(),
            forall|x: int| 0 <= x < t.keys@.len() ==> t.depths@[x] <= m,
            forall|x: int|
                0 <= x < t.keys@.len() ==> t.depths@[x] == span_depth(spans@, #[trigger] t.keys@[x]),
            forall|j: int| 0 <= j < spans@.len() ==> t.keys@.contains(#[trigger] spans@[j]),
            i <= spans@.len(),
            ds@.len() == i,
            forall|x: int| 0 <= x < i ==> ds@[x] == span_depth(spans@, #[trigger] spans@[x]),
            forall|x: int| 0 <= x < i ==> #[trigger] ds@[x] <= m,
        decreases spans.len() - i,
    {
        let s = spans[i];
        proof {
            assert(t.keys@.contains(spans@[i as int]));
            let x = choose|x: int| 0 <= x < t.keys@.len() && t.keys@[x] == spans@[i as int];
            lemma_map_of_at(t.keys@, t.depths@, x);
        }
        let d = match t.get(s.line_start, s.line_end) {
            Some(d) => d,
            None => 0,
        };
        ds.push(d);
        i = i + 1;
    }
    proof {
        if spans@.len() > 0 {
            let j = choose|j: int|
                0 <= j < spans@.len() && rail_width(spans@) == span_depth(spans@, #[trigger] spans@[j])
                    + 1;
            assert(t.keys@.contains(spans@[j]));
            let x = choose|x: int| 0 <= x < t.keys@.len() && t.keys@[x] == spans@[j];
            assert(t.depths@[x] <= m);
            let y = choose|y: int| 0 <= y < k && t.depths@[y] == m;
            assert(spans@.contains(t.keys@[y]));
            let w = choose|w: int| 0 <= w < spans@.len() && spans@[w] == t.keys@[y];
            assert(span_depth(spans@, spans@[w]) < rail_width(spans@));
        }
    }
    (ds, m + 1)
}

/// The number of rail columns the chunks need: one more than the greatest
/// depth, and one when there are no chunks.
pub fn calculate_max_depth(all_chunks: &[IndexedChunkMeta]) -> (r: usize)
    ensures
        r == rail_width(spans_of(all_chunks@)),
        forall|i: int|
            0 <= i < all_chunks@.len() ==> span_depth(
                spans_of(all_chunks@),
                (#[trigger] all_chunks@[i]).span,
            ) < r,
        all_chunks@.len() == 0 ==> r == 1,
        all_chunks@.len() > 0 ==> exists|i: int|
            0 <= i < all_chunks@.len() && r == span_depth(
                spans_of(all_chunks@),
                (#[trigger] all_chunks@[i]).span,
            ) + 1,
{
    let spans = crate::chunk::chunk_spans(all_chunks);
    let (_ds, m) = depths_and_width(&spans);
    proof {
        lemma_width_upto(spans@, spans@.len() as int);
        assert forall|i: int| 0 <= i < all_chunks@.len() implies span_depth(
            spans_of(all_chunks@),
            (#[trigger] all_chunks@[i]).span,
        ) < m by {
            assert(spans@[i] == all_chunks@[i].span);
        }
        if spans@.len() > 0 {
            let i = choose|i: int|
                0 <= i < spans@.len() && m == span_depth(spans@, #[trigger] spans@[i]) + 1;
            assert(spans@[i] == all_chunks@[i].span);
        }
    }
    m
}

proof fn lemma_count_prefix(s: Seq<Span>, b: Span, i: int, n: int)
    requires
        0 <= n <= s.len(),
        0 <= i < s.len(),
        s[i] == b,
        b.valid(),
        forall|j: int| 0 <= j < s.len() && j != i ==> #[trigger] s[j] != b,
        forall|j: int|
            0 <= j < s.len() && j != i ==> (counts_toward(#[trigger] s[j], b) <==> encloses(
                s[j],
                b,
            )),
    ensures
        count_toward(s.subrange(0, n), b) == enclosing_count(s.subrange(0, n), b) + if i < n
            && b.line_end > b.line_start {
            1int
        } else {
            0int
        },
    decreases n,
{
    if n > 0 {
        assert(s.subrange(0, n).drop_last() =~= s.subrange(0, n - 1));
        lemma_count_prefix(s, b, i, n - 1);
    }
}

/// A chunk that no other chunk is still open around on its start line gets
/// depth 0.
pub proof fn lemma_unenclosed_depth_zero(spans: Seq<Span>, i: int)
    requires
        0 <= i < spans.len(),
        spans[i].valid(),
        forall|j: int|
            0 <= j < spans.len() && j != i ==> !(#[trigger] spans[j].line_start
                <= spans[i].line_start < spans[j].line_end),
    ensures
        span_depth(spans, spans[i]) == 0,
{
    let b = spans[i];
    lemma_count_prefix_zero(spans, b, i, spans.len() as int);
    assert(spans.subrange(0, spans.len() as int) =~= spans);
}

proof fn lemma_count_prefix_zero(s: Seq<Span>, b: Span, i: int, n: int)
    requires
        0 <= n <= s.len(),
        0 <= i < s.len(),
        s[i] == b,
        b.valid(),
        forall|j: int|
            0 <= j < s.len() && j != i ==> !(#[trigger] s[j].line_start <= b.line_start
                < s[j].line_end),
    ensures
        count_toward(s.subrange(0, n), b) == if i < n && b.line_end > b.line_start {
            1int
        } else {
            0int
        },
    decreases n,
{
    if n > 0 {
        assert(s.subrange(0, n).drop_last() =~= s.subrange(0, n - 1));
        lemma_count_prefix_zero(s, b, i, n - 1);
        let a = s[n - 1];
        if n - 1 != i {
            assert(!(a.line_start <= b.line_start < a.line_end));
        }
    }
}

/// Where spans are properly nested, a chunk whose span no other chunk repeats
/// gets as its depth the number of chunks that enclose it and are still open
/// after its first line.
pub proof fn lemma_depth_counts_enclosers(spans: Seq<Span>, i: int)
    requires
        0 <= i < spans.len(),
        spans_valid(spans),
        properly_nested(spans),
        forall|j: int| 0 <= j < spans.len() && j != i ==> #[trigger] spans[j] != spans[i],
    ensures
        span_depth(spans, spans[i]) == enclosing_count(spans, spans[i]),
{
    let b = spans[i];
    assert forall|j: int| 0 <= j < spans.len() && j != i implies (counts_toward(
        #[trigger] spans[j],
        b,
    ) <==> encloses(spans[j], b)) by {
        let a = spans[j];
        assert(a.valid());
        assert(b.valid());
        assert((a.line_start <= b.line_start && b.line_end <= a.line_end) || (b.line_start
            <= a.line_start && a.line_end <= b.line_end) || a.line_end <= b.line_start
            || b.line_end <= a.line_start);
    }
    lemma_count_prefix(spans, b, i, spans.len() as int);
    assert(spans.subrange(0, spans.len() as int) =~= spans);
}

// ---------------------------------------------------------------------------
// The sweep
/// `a` may be taken before `b`: it starts earlier, or on the same line and ends
/// no earlier.
pub open spec fn taken_before(a: Span, b: Span) -> bool {
    a.line_start < b.line_start || (a.line_start == b.line_start && a.line_end >= b.line_end)
}

pub open spec fn sweep_sorted(t: Seq<Span>) -> bool {
    forall|i: int, j: int| 0 <= i < j < t.len() ==> taken_before(#[trigger] t[i], #[trigger] t[j])
}

/// How many of `t` are still open after line `x`.
pub open spec fn count_open(t: Seq<Span>, x: int) -> nat
    decreases t.len(),
{
    if t.len() == 0 {
        0
    } else {
        count_open(t.drop_last(), x) + if t.last().line_end > x {
            1nat
        } else {
            0nat
        }
    }
}

proof fn lemma_count_toward_concat(a: Seq<Span>, c: Seq<Span>, b: Span)
    ensures
        count_toward(a + c, b) == count_toward(a, b) + count_toward(c, b),
    decreases c.len(),
{
    if c.len() > 0 {
        lemma_count_toward_concat(a, c.drop_last(), b);
        assert((a + c).drop_last() =~= a + c.drop_last());
    } else {
        assert(a + c =~= a);
    }
}

proof fn lemma_count_toward_insert(t: Seq<Span>, p: int, x: Span, b: Span)
    requires
        0 <= p <= t.len(),
    ensures
        count_toward(t.insert(p, x), b) == count_toward(t, b) + if counts_toward(x, b) {
            1nat
        } else {
            0nat
        },
{
    let l = t.subrange(0, p);
    let r = t.subrange(p, t.len() as int);
    assert(t =~= l + r);
    assert(t.insert(p, x) =~= l.push(x) + r);
    lemma_count_toward_concat(l, r, b);
    lemma_count_toward_concat(l.push(x), r, b);
    assert(l.push(x).drop_last() =~= l);
}

proof fn lemma_prefix_counts_open(s: Seq<Span>, b: Span)
    requires
        forall|k: int| 0 <= k < s.len() ==> taken_before(#[trigger] s[k], b),
    ensures
        count_toward(s, b) == count_open(s, b.line_start as int),
    decreases s.len(),
{
    if s.len() > 0 {
        let d = s.drop_last();
        assert forall|k: int| 0 <= k < d.len() implies taken_before(#[trigger] d[k], b) by {
            assert(d[k] == s[k]);
        }
        lemma_prefix_counts_open(d, b);
        assert(taken_before(s[s.len() - 1], b));
    }
}

proof fn lemma_none_count(s: Seq<Span>, b: Span)
    requires
        forall|k: int| 0 <= k < s.len() ==> !counts_toward(#[trigger] s[k], b),
    ensures
        count_toward(s, b) == 0,
    decreases s.len(),
{
    if s.len() > 0 {
        let d = s.drop_last();
        assert forall|k: int| 0 <= k < d.len() implies !counts_toward(#[trigger] d[k], b) by {
            assert(d[k] == s[k]);
        }
        lemma_none_count(d, b);
        assert(!counts_toward(s[s.len() - 1], b));
    }
}

/// In sweep order, the depth of the last chunk with a span is the number of
/// chunks before it that are open after its start line.
proof fn lemma_sweep_depth(t: Seq<Span>, i: int)
    requires
        sweep_sorted(t),
        0 <= i < t.len(),
        forall|j: int| i < j < t.len() ==> #[trigger] t[j] != t[i],
    ensures
        span_depth(t, t[i]) == count_open(t.subrange(0, i), t[i].line_start as int),
{
    let b = t[i];
    let l = t.subrange(0, i);
    let m = seq![b];
    let r = t.subrange(i + 1, t.len() as int);
    assert(t =~= l + m + r);
    lemma_count_toward_concat(l + m, r, b);
    lemma_count_toward_concat(l, m, b);
    assert forall|k: int| 0 <= k < l.len() implies taken_before(#[trigger] l[k], b) by {
        assert(l[k] == t[k]);
    }
    lemma_prefix_counts_open(l, b);
    assert forall|k: int| 0 <= k < r.len() implies !counts_toward(#[trigger] r[k], b) by {
        assert(r[k] == t[i + 1 + k]);
        assert(taken_before(b, t[i + 1 + k]));
    }
    lemma_none_count(r, b);
    assert(m.drop_last() =~= Seq::<Span>::empty());
    assert(count_toward(m.drop_last(), b) == 0);
    assert(m.last() == b);
    assert(count_toward(m, b) == if counts_toward(b, b) {
        1nat
    } else {
        0nat
    });
}

/// The spans in sweep order: by start line, longer first.
fn sort_for_sweep(spans: &Vec<Span>) -> (t: Vec<Span>)
    ensures
        sweep_sorted(t@),
        t@.len() == spans@.len(),
        forall|b: Span| count_toward(t@, b) == count_toward(spans@, b),
        forall|b: Span| t@.contains(b) <==> spans@.contains(b),
{
    let mut t: Vec<Span> = Vec::new();
    let mut i: usize = 0;
    while i < spans.len()
        invariant
            i <= spans@.len(),
            t@.len() == i,
            sweep_sorted(t@),
            forall|b: Span| count_toward(t@, b) == count_toward(spans@.subrange(0, i as int), b),
            forall|b: Span| t@.contains(b) <==> spans@.subrange(0, i as int).contains(b),
        decreases spans.len() - i,
    {
        let x = spans[i];
        let mut p: usize = 0;
        while p < t.len() && (t[p].line_start < x.line_start || (t[p].line_start == x.line_start
            && t[p].line_end >= x.line_end))
            invariant
                p <= t@.len(),
                forall|k: int| 0 <= k < p ==> taken_before(#[trigger] t@[k], x),
            decreases t.len() - p,
        {
            p = p + 1;
        }
        let ghost old_t = t@;
        let ghost pre = spans@.subrange(0, i as int);
        t.insert(p, x);
        proof {
            assert(spans@.subrange(0, i as int + 1) =~= pre.push(x));
            assert(pre.push(x).drop_last() =~= pre);
            assert forall|b: Span| count_toward(t@, b) == count_toward(
                spans@.subrange(0, i as int + 1),
                b,
            ) by {
                lemma_count_toward_insert(old_t, p as int, x, b);
            }
            assert forall|b: Span| t@.contains(b) <==> spans@.subrange(0, i as int + 1).contains(
                b,
            ) by {
                let q = spans@.subrange(0, i as int + 1);
                assert(old_t.contains(b) <==> pre.contains(b));
                if t@.contains(b) {
                    let k = choose|k: int| 0 <= k < t@.len() && t@[k] == b;
                    if k < p {
                        assert(old_t[k] == b);
                        let w = choose|w: int| 0 <= w < pre.len() && pre[w] == b;
                        assert(q[w] == pre[w]);
                    } else if k == p {
                        assert(q[i as int] == b);
                    } else {
                        assert(old_t[k - 1] == b);
                        let w = choose|w: int| 0 <= w < pre.len() && pre[w] == b;
                        assert(q[w] == pre[w]);
                    }
                }
                if q.contains(b) {
                    let w = choose|w: int| 0 <= w < q.len() && q[w] == b;
                    if w < i {
                        assert(pre[w] == q[w]);
                        assert(pre.contains(b));
                        let k = choose|k: int| 0 <= k < old_t.len() && old_t[k] == b;
                        if k < p {
                            assert(t@[k] == b);
                        } else {
                            assert(t@[k + 1] == b);
                        }
                    } else {
                        assert(t@[p as int] == b);
                    }
                }
            }
            assert forall|a: int, c: int| 0 <= a < c < t@.len() implies taken_before(
                #[trigger] t@[a],
                #[trigger] t@[c],
            ) by {
                if p < old_t.len() {
                    assert(!taken_before(old_t[p as int], x));
                }
                if c < p {
                    assert(taken_before(old_t[a], old_t[c]));
                } else if c == p {
                    assert(taken_before(old_t[a], x));
                } else if a < p {
                    assert(taken_before(old_t[a], old_t[c - 1]));
                } else if a == p {
                    assert(taken_before(old_t[p as int], old_t[c - 1]));
                } else {
                    assert(taken_before(old_t[a - 1], old_t[c - 1]));
                }
            }
        }
        i = i + 1;
    }
    assert(spans@.subrange(0, i as int) =~= spans@);
    t
}

/// The chunks still open after line `x`, of those in `stack`.
fn retain_open(stack: &Vec<Span>, x: usize) -> (r: Vec<Span>)
    ensures
        r@.len() == count_open(stack@, x as int),
        forall|y: int| y >= x ==> count_open(r@, y) == count_open(stack@, y),
{
    let mut r: Vec<Span> = Vec::new();
    let mut k: usize = 0;
    while k < stack.len()
        invariant
            k <= stack@.len(),
            r@.len() == count_open(stack@.subrange(0, k as int), x as int),
            forall|y: int|
                y >= x ==> count_open(r@, y) == count_open(stack@.subrange(0, k as int), y),
        decreases stack.len() - k,
    {
        let ghost old_r = r@;
        assert(stack@.subrange(0, k as int + 1).drop_last() =~= stack@.subrange(0, k as int));
        let ghost pk = stack@.subrange(0, k as int + 1);
        if stack[k].line_end > x {
            r.push(stack[k]);
            assert(r@.drop_last() =~= old_r);
        }
        assert forall|y: int| y >= x implies count_open(r@, y) == count_open(pk, y) by {
            assert(pk.last() == stack@[k as int]);
            assert(count_open(old_r, y) == count_open(stack@.subrange(0, k as int), y));
        }
        k = k + 1;
    }
    assert(stack@.subrange(0, k as int) =~= stack@);
    r
}

/// The depth table by a sweep over the spans in order of start line, keeping
/// a stack of the chunks still open.
fn sweep_table(spans: &Vec<Span>) -> (r: DepthMap)
    ensures
        r.wf(),
        forall|k: int|
            0 <= k < r.keys@.len() ==> r.depths@[k] == span_depth(spans@, #[trigger] r.keys@[k]),
        forall|k: int| 0 <= k < r.keys@.len() ==> spans@.contains(#[trigger] r.keys@[k]),
        forall|j: int| 0 <= j < spans@.len() ==> r.keys@.contains(#[trigger] spans@[j]),
{
    let t = sort_for_sweep(spans);
    let mut stack: Vec<Span> = Vec::new();
    let mut r = DepthMap { keys: Vec::new(), depths: Vec::new() };
    let ghost mut lastpos: Seq<int> = Seq::empty();
    let mut i: usize = 0;
    while i < t.len()
        invariant
            i <= t@.len(),
            sweep_sorted(t@),
            forall|x: int|
                (i == 0 || x >= t@[i - 1].line_start) ==> count_open(stack@, x) == count_open(
                    t@.subrange(0, i as int),
                    x,
                ),
            r.wf(),
            i == 0 ==> r.keys@.len() == 0,
            i > 0 ==> r.keys@.len() > 0 && r.keys@.last() == t@[i - 1],
            lastpos.len() == r.keys@.len(),
            forall|k: int|
                0 <= k < r.keys@.len() ==> {
                    let j = #[trigger] lastpos[k];
                    &&& 0 <= j < i
                    &&& t@[j] == r.keys@[k]
                    &&& forall|j2: int| j < j2 < i ==> #[trigger] t@[j2] != r.keys@[k]
                    &&& r.depths@[k] == count_open(t@.subrange(0, j), t@[j].line_start as int)
                },
            forall|j: int| 0 <= j < i ==> r.keys@.contains(#[trigger] t@[j]),
        decreases t.len() - i,
    {
        let s = t[i];
        let open = retain_open(&stack, s.line_start);
        let d = open.len();
        proof {
            if i > 0 {
                assert(taken_before(t@[i - 1], t@[i as int]));
            }
        }
        let ghost old_keys = r.keys@;
        let ghost old_depths = r.depths@;
        let ghost old_pos = lastpos;
        let n = r.keys.len();
        if n > 0 && r.keys[n - 1] == s {
            r.depths.set(n - 1, d);
            proof {
                lastpos = lastpos.update(n - 1, i as int);
                assert forall|k: int| 0 <= k < r.keys@.len() && k != n - 1 implies r.keys@[k] != s by {
                    assert(old_keys[k] != old_keys[n - 1]);
                }
            }
        } else {
            proof {
                assert forall|j: int| 0 <= j < i implies #[trigger] t@[j] != s by {
                    if t@[j] == s {
                        assert(taken_before(t@[j], t@[i - 1]));
                        assert(taken_before(t@[i - 1], t@[i as int]));
                        assert(t@[i - 1] == s);
                    }
                }
                assert forall|k: int| 0 <= k < old_keys.len() implies old_keys[k] != s by {
                    assert(t@[old_pos[k]] == old_keys[k]);
                }
            }
            r.keys.push(s);
            r.depths.push(d);
            proof {
                lastpos = lastpos.push(i as int);
                assert forall|k: int| 0 <= k < old_keys.len() implies r.keys@[k] == old_keys[k]
                    && r.depths@[k] == old_depths[k] by {}
                assert forall|a: int, c: int| 0 <= a < c < r.keys@.len() implies taken_before(
                    #[trigger] r.keys@[a],
                    #[trigger] r.keys@[c],
                ) by {
                    if c == old_keys.len() {
                        assert(t@[old_pos[a]] == old_keys[a]);
                        assert(taken_before(t@[old_pos[a]], t@[i as int]));
                    } else {
                        assert(taken_before(old_keys[a], old_keys[c]));
                    }
                }
            }
        }
        let mut next = open;
        next.push(s);
        proof {
            let ti = t@.subrange(0, i as int + 1);
            assert(ti.drop_last() =~= t@.subrange(0, i as int));
            assert forall|x: int| x >= s.line_start implies count_open(next@, x) == count_open(
                ti,
                x,
            ) by {
                assert(next@.drop_last() =~= open@);
                assert(next@.last() == s);
                assert(ti.last() == s);
                if i > 0 {
                    assert(x >= t@[i - 1].line_start);
                }
                assert(count_open(stack@, x) == count_open(t@.subrange(0, i as int), x));
                assert(count_open(open@, x) == count_open(stack@, x));
            }
            assert forall|j: int| 0 <= j < i + 1 implies r.keys@.contains(#[trigger] t@[j]) by {
                if j < i {
                    assert(old_keys.contains(t@[j]));
                    let k = choose|k: int| 0 <= k < old_keys.len() && old_keys[k] == t@[j];
                    assert(r.keys@[k] == old_keys[k]);
                } else {
                    assert(r.keys@[r.keys@.len() - 1] == s);
                }
            }
        }
        stack = next;
        i = i + 1;
    }
    proof {
        assert forall|k: int| 0 <= k < r.keys@.len() implies r.depths@[k] == span_depth(
            spans@,
            #[trigger] r.keys@[k],
        ) && spans@.contains(r.keys@[k]) by {
            let j = lastpos[k];
            lemma_sweep_depth(t@, j);
            assert(t@.contains(r.keys@[k]));
        }
        assert forall|j: int| 0 <= j < spans@.len() implies r.keys@.contains(
            #[trigger] spans@[j],
        ) by {
            assert(spans@.contains(spans@[j]));
            let w = choose|w: int| 0 <= w < t@.len() && t@[w] == spans@[j];
        }
    }
    r
}

} // verus!
