//! The per-line display model: a fixed-width rail of active chunks beside each
//! source line, a header above the matched chunk, and a text-chunk overlay.
use vstd::prelude::*;
use vstd::string::*;
use crate::chunk::{IndexedChunkMeta, Span, is_text, all_valid, is_text_chunk};
use crate::depth::{span_depth, rail_width, depths_and_width};
use crate::text::{starts_with, trim_start, decimal};

verus! {

/// One rail column of a content line.
#[derive(Clone, Copy, PartialEq, Eq, Structural, Debug)]
pub struct ChunkColumnChar {
    pub ch: char,
    pub is_match: bool,
}

/// One row of the display.
#[derive(Debug)]
pub enum ChunkDisplayLine {
    /// A header placed just above the first line of the matched chunk.
    Label { prefix: usize, text: String },
    /// A source line with its rail columns.
    Content {
        columns: Vec<ChunkColumnChar>,
        line_num: usize,
        text: String,
        is_match_line: bool,
        in_matched_chunk: bool,
        has_any_chunk: bool,
    },
    /// An informational line.
    Message(String),
}

/// The value of a display row.
pub enum DisplayRow {
    Label { prefix: usize, text: Seq<char> },
    Content {
        columns: Seq<ChunkColumnChar>,
        line_num: usize,
        text: Seq<char>,
        is_match_line: bool,
        in_matched_chunk: bool,
        has_any_chunk: bool,
    },
    Message(Seq<char>),
}

impl View for ChunkDisplayLine {
    type V = DisplayRow;

    open spec fn view(&self) -> DisplayRow {
        match self {
            ChunkDisplayLine::Label { prefix, text } => DisplayRow::Label {
                prefix: *prefix,
                text: text@,
            },
            ChunkDisplayLine::Content {
                columns,
                line_num,
                text,
                is_match_line,
                in_matched_chunk,
                has_any_chunk,
            } => DisplayRow::Content {
                columns: columns@,
                line_num: *line_num,
                text: text@,
                is_match_line: *is_match_line,
                in_matched_chunk: *in_matched_chunk,
                has_any_chunk: *has_any_chunk,
            },
            ChunkDisplayLine::Message(m) => DisplayRow::Message(m@),
        }
    }
}

pub open spec fn rows_view(rows: Seq<ChunkDisplayLine>) -> Seq<DisplayRow> {
    rows.map_values(|r: ChunkDisplayLine| r@)
}

// ---------------------------------------------------------------------------
// Structural chunks and the rail width
/// The spans of the structural chunks, in input order.
pub open spec fn structural_spans(chunks: Seq<IndexedChunkMeta>) -> Seq<Span>
    decreases chunks.len(),
{
    if chunks.len() == 0 {
        Seq::empty()
    } else {
        let p = structural_spans(chunks.drop_last());
        if is_text(chunks.last()) {
            p
        } else {
            p.push(chunks.last().span)
        }
    }
}

// ---------------------------------------------------------------------------
// Rail occupancy
/// Chunk `k` started before the first visible line.
pub open spec fn starts_early(ss: Seq<Span>, first: int, k: int) -> bool {
    ss[k].line_start < first
}

/// Chunk `k` has entered the rail by the end of line `line`: it started before
/// the first visible line and is still open there, or it starts on a visible
/// line up to `line`.
pub open spec fn placed(ss: Seq<Span>, first: int, line: int, k: int) -> bool {
    (ss[k].line_start < first && ss[k].line_end >= first) || (first <= ss[k].line_start
        <= line)
}

/// The line at which chunk `k` enters the rail.
pub open spec fn entry_line(ss: Seq<Span>, first: int, k: int) -> int {
    if ss[k].line_start < first {
        first
    } else {
        ss[k].line_start as int
    }
}

/// Chunk `k2` enters the rail after chunk `k1`: on a later line; or on the
/// same line with `k1` carried in from before the window and `k2` starting
/// there; or in input order.
pub open spec fn enters_after(ss: Seq<Span>, first: int, k2: int, k1: int) -> bool {
    entry_line(ss, first, k2) > entry_line(ss, first, k1) || (entry_line(ss, first, k2)
        == entry_line(ss, first, k1) && ((starts_early(ss, first, k1) && !starts_early(
        ss,
        first,
        k2,
    )) || (starts_early(ss, first, k1) == starts_early(ss, first, k2) && k2 > k1)))
}

/// Chunk `k` is the last to have entered column `d` by the end of line `line`.
pub open spec fn last_entered(ss: Seq<Span>, first: int, line: int, d: int, k: int) -> bool {
    &&& 0 <= k < ss.len()
    &&& placed(ss, first, line, k)
    &&& span_depth(ss, ss[k]) == d
    &&& forall|k2: int|
        0 <= k2 < ss.len() && k2 != k && placed(ss, first, line, k2) && span_depth(ss, ss[k2])
            == d ==> !enters_after(ss, first, k2, k)
}

/// Chunk `k` occupies column `d` on line `line`: it was the last to enter that
/// column and has not ended.
pub open spec fn occupies(ss: Seq<Span>, first: int, line: int, d: int, k: int) -> bool {
    last_entered(ss, first, line, d, k) && ss[k].line_end >= line
}

pub open spec fn occupied(ss: Seq<Span>, first: int, line: int, d: int) -> bool {
    exists|k: int| occupies(ss, first, line, d, k)
}

pub open spec fn occupant(ss: Seq<Span>, first: int, line: int, d: int) -> int {
    choose|k: int| occupies(ss, first, line, d, k)
}

// ---------------------------------------------------------------------------
// Symbols
/// The rail symbol of a chunk with span `s` on line `line`.
pub open spec fn rail_symbol(s: Span, line: int) -> char {
    if s.line_start == s.line_end {
        '─'
    } else if line == s.line_start {
        '┌'
    } else if line == s.line_end {
        '└'
    } else {
        '│'
    }
}

/// The overlay symbol of a text chunk with span `s` on line `line`.
pub open spec fn text_symbol(s: Span, line: int) -> char {
    if s.line_start == s.line_end {
        '·'
    } else if line == s.line_start {
        '┌'
    } else if line == s.line_end {
        '└'
    } else {
        '│'
    }
}

pub open spec fn blank_column() -> ChunkColumnChar {
    ChunkColumnChar { ch: ' ', is_match: false }
}

pub open spec fn deref_opt(o: Option<&IndexedChunkMeta>) -> Option<IndexedChunkMeta> {
    match o {
        Some(m) => Some(*m),
        None => None,
    }
}

pub open spec fn matches_span(matched: Option<IndexedChunkMeta>, s: Span) -> bool {
    match matched {
        Some(m) => m.span == s,
        None => false,
    }
}

/// Column `d` on line `line`.
pub open spec fn rail_column(
    ss: Seq<Span>,
    first: int,
    line: int,
    d: int,
    matched: Option<IndexedChunkMeta>,
) -> ChunkColumnChar {
    if occupied(ss, first, line, d) {
        let s = ss[occupant(ss, first, line, d)];
        ChunkColumnChar { ch: rail_symbol(s, line), is_match: matches_span(matched, s) }
    } else {
        blank_column()
    }
}

pub open spec fn any_occupied(ss: Seq<Span>, first: int, line: int) -> bool {
    exists|d: int| 0 <= d < rail_width(ss) && occupied(ss, first, line, d)
}

/// The first text chunk among the first `n` that covers `line`.
pub open spec fn first_text_upto(chunks: Seq<IndexedChunkMeta>, line: int, n: int) -> Option<int>
    decreases n,
{
    if n <= 0 {
        None
    } else {
        match first_text_upto(chunks, line, n - 1) {
            Some(x) => Some(x),
            None => if is_text(chunks[n - 1]) && chunks[n - 1].span.covers(line) {
                Some(n - 1)
            } else {
                None
            },
        }
    }
}

pub open spec fn text_chunk_at(chunks: Seq<IndexedChunkMeta>, line: int) -> Option<int> {
    first_text_upto(chunks, line, chunks.len() as int)
}

/// The columns of line `line` when the file has chunks.
pub open spec fn line_columns(
    chunks: Seq<IndexedChunkMeta>,
    first: int,
    line: int,
    matched: Option<IndexedChunkMeta>,
) -> Seq<ChunkColumnChar> {
    let ss = structural_spans(chunks);
    let base = Seq::new(
        rail_width(ss) as nat,
        |d: int| rail_column(ss, first, line, d, matched),
    );
    match text_chunk_at(chunks, line) {
        Some(t) => if !any_occupied(ss, first, line) {
            base.update(0, ChunkColumnChar { ch: text_symbol(chunks[t].span, line), is_match: false })
        } else {
            base
        },
        None => base,
    }
}

// ---------------------------------------------------------------------------
// Lines of a file without chunks
/// A line that opens a definition in one of the common languages.
pub open spec fn is_boundary_line(t: Seq<char>) -> bool {
    let s = trim_start(t);
    starts_with(s, "fn "@) || starts_with(s, "func "@) || starts_with(s, "def "@) || starts_with(
        s,
        "class "@,
    ) || starts_with(s, "impl "@) || starts_with(s, "struct "@) || starts_with(s, "enum "@)
}

pub open spec fn boundary_columns(t: Seq<char>) -> Seq<ChunkColumnChar> {
    if is_boundary_line(t) {
        seq![
            ChunkColumnChar { ch: '┣', is_match: false },
            ChunkColumnChar { ch: '━', is_match: false },
        ]
    } else {
        Seq::empty()
    }
}

// ---------------------------------------------------------------------------
// Header text
/// Names joined by `::`.
pub open spec fn join_names(names: Seq<String>) -> Seq<char>
    decreases names.len(),
{
    if names.len() == 0 {
        Seq::empty()
    } else if names.len() == 1 {
        names[0]@
    } else {
        join_names(names.drop_last()) + "::"@ + names.last()@
    }
}

pub open spec fn kind_text(m: IndexedChunkMeta) -> Seq<char> {
    match m.chunk_type {
        Some(t) => t@,
        None => "chunk"@,
    }
}

/// ` (<breadcrumb>)`, or ` (<ancestry joined by ::>)` when the breadcrumb is
/// missing or empty, or nothing when neither is there.
pub open spec fn scope_text(m: IndexedChunkMeta) -> Seq<char> {
    if m.breadcrumb is Some && m.breadcrumb->0@.len() > 0 {
        " ("@ + m.breadcrumb->0@ + ")"@
    } else if m.ancestry@.len() > 0 {
        " ("@ + join_names(m.ancestry@) + ")"@
    } else {
        Seq::empty()
    }
}

pub open spec fn tokens_text(m: IndexedChunkMeta) -> Seq<char> {
    match m.estimated_tokens {
        Some(n) => "  • "@ + decimal(n as nat) + " tokens"@,
        None => Seq::empty(),
    }
}

/// The header of the matched chunk.
pub open spec fn label_text(m: IndexedChunkMeta) -> Seq<char> {
    kind_text(m) + scope_text(m) + tokens_text(m)
}

// ---------------------------------------------------------------------------
// Rows
pub open spec fn content_row(
    lines: Seq<String>,
    chunks: Seq<IndexedChunkMeta>,
    first: int,
    line: int,
    match_line: int,
    matched: Option<IndexedChunkMeta>,
) -> DisplayRow {
    let text = lines[line - 1]@;
    if chunks.len() == 0 {
        DisplayRow::Content {
            columns: boundary_columns(text),
            line_num: line as usize,
            text,
            is_match_line: line == match_line,
            in_matched_chunk: false,
            has_any_chunk: is_boundary_line(text),
        }
    } else {
        DisplayRow::Content {
            columns: line_columns(chunks, first, line, matched),
            line_num: line as usize,
            text,
            is_match_line: line == match_line,
            in_matched_chunk: match matched {
                Some(m) => m.span.covers(line),
                None => false,
            },
            has_any_chunk: any_occupied(structural_spans(chunks), first, line)
                || text_chunk_at(chunks, line) is Some,
        }
    }
}

/// The rows of one line: the header first when the matched chunk starts there.
pub open spec fn line_rows(
    lines: Seq<String>,
    chunks: Seq<IndexedChunkMeta>,
    first: int,
    line: int,
    match_line: int,
    matched: Option<IndexedChunkMeta>,
) -> Seq<DisplayRow> {
    let c = content_row(lines, chunks, first, line, match_line, matched);
    match matched {
        Some(m) => if m.span.line_start == line {
            seq![
                DisplayRow::Label {
                    prefix: rail_width(structural_spans(chunks)) as usize,
                    text: label_text(m),
                },
                c,
            ]
        } else {
            seq![c]
        },
        None => seq![c],
    }
}

/// The rows of the first `n` visible lines.
pub open spec fn rows_upto(
    lines: Seq<String>,
    chunks: Seq<IndexedChunkMeta>,
    first: int,
    n: int,
    match_line: int,
    matched: Option<IndexedChunkMeta>,
) -> Seq<DisplayRow>
    decreases n,
{
    if n <= 0 {
        Seq::empty()
    } else {
        rows_upto(lines, chunks, first, n - 1, match_line, matched) + line_rows(
            lines,
            chunks,
            first,
            first + n - 1,
            match_line,
            matched,
        )
    }
}

pub open spec fn no_match_message() -> Seq<char> {
    "Chunk metadata available but no matching chunk found for this line."@
}

/// The whole display of lines `context_start + 1 ..= context_end`.
pub open spec fn display_rows(
    lines: Seq<String>,
    context_start: int,
    context_end: int,
    match_line: int,
    matched: Option<IndexedChunkMeta>,
    chunks: Seq<IndexedChunkMeta>,
    full_file_mode: bool,
) -> Seq<DisplayRow> {
    let body = rows_upto(
        lines,
        chunks,
        context_start + 1,
        context_end - context_start,
        match_line,
        matched,
    );
    if !full_file_mode && matched is None && chunks.len() > 0 {
        body.push(DisplayRow::Message(no_match_message()))
    } else {
        body
    }
}

// ---------------------------------------------------------------------------
// Executable pieces
fn structural_span_list(chunks: &[IndexedChunkMeta]) -> (r: Vec<Span>)
    ensures
        r@ == structural_spans(chunks@),
{
    let mut r: Vec<Span> = Vec::new();
    let mut i: usize = 0;
    while i < chunks.len()
        invariant
            i <= chunks@.len(),
            r@ == structural_spans(chunks@.subrange(0, i as int)),
        decreases chunks.len() - i,
    {
        assert(chunks@.subrange(0, i as int + 1).drop_last() =~= chunks@.subrange(0, i as int));
        if !is_text_chunk(&chunks[i]) {
            r.push(chunks[i].span);
        }
        i = i + 1;
    }
    assert(chunks@.subrange(0, i as int) =~= chunks@);
    r
}

proof fn lemma_structural_valid(chunks: Seq<IndexedChunkMeta>)
    requires
        all_valid(chunks),
    ensures
        forall|k: int|
            0 <= k < structural_spans(chunks).len() ==> (#[trigger] structural_spans(chunks)[k]).valid(),
    decreases chunks.len(),
{
    if chunks.len() > 0 {
        let c = chunks.drop_last();
        assert forall|i: int| 0 <= i < c.len() implies (#[trigger] c[i]).span.valid() by {
            assert(c[i] == chunks[i]);
        }
        lemma_structural_valid(c);
        assert(chunks[chunks.len() - 1].span.valid());
        let p = structural_spans(c);
        let q = structural_spans(chunks);
        assert forall|k: int| 0 <= k < q.len() implies (#[trigger] q[k]).valid() by {
            if k < p.len() {
                assert(q[k] == p[k]);
            }
        }
    }
}

fn rail_symbol_of(s: Span, line: usize) -> (r: char)
    ensures
        r == rail_symbol(s, line as int),
{
    if s.line_start == s.line_end {
        '─'
    } else if line == s.line_start {
        '┌'
    } else if line == s.line_end {
        '└'
    } else {
        '│'
    }
}

fn text_symbol_of(s: Span, line: usize) -> (r: char)
    ensures
        r == text_symbol(s, line as int),
{
    if s.line_start == s.line_end {
        '·'
    } else if line == s.line_start {
        '┌'
    } else if line == s.line_end {
        '└'
    } else {
        '│'
    }
}

fn same_span(matched: Option<&IndexedChunkMeta>, s: Span) -> (r: bool)
    ensures
        r == matches_span(deref_opt(matched), s),
{
    match matched {
        Some(m) => m.span == s,
        None => false,
    }
}

/// The first text chunk that covers `line`.
fn find_text_chunk(chunks: &[IndexedChunkMeta], line: usize) -> (r: Option<usize>)
    ensures
        match r {
            Some(x) => x < chunks@.len() && text_chunk_at(chunks@, line as int) == Some(x as int),
            None => text_chunk_at(chunks@, line as int) is None,
        },
{
    let mut i: usize = 0;
    while i < chunks.len()
        invariant
            i <= chunks@.len(),
            first_text_upto(chunks@, line as int, i as int) is None,
        decreases chunks.len() - i,
    {
        if is_text_chunk(&chunks[i]) && chunks[i].span.line_start <= line && line
            <= chunks[i].span.line_end {
            proof {
                lemma_first_text_stays(chunks@, line as int, i as int + 1, chunks@.len() as int);
            }
            return Some(i);
        }
        i = i + 1;
    }
    None
}

proof fn lemma_first_text_stays(chunks: Seq<IndexedChunkMeta>, line: int, n: int, m: int)
    requires
        0 <= n <= m,
        first_text_upto(chunks, line, n) is Some,
    ensures
        first_text_upto(chunks, line, m) == first_text_upto(chunks, line, n),
    decreases m - n,
{
    if m > n {
        lemma_first_text_stays(chunks, line, n, m - 1);
    }
}

fn is_boundary(t: &String) -> (r: bool)
    ensures
        r == is_boundary_line(t@),
{
    let s = t.as_str();
    crate::text::trimmed_starts_with(s, "fn ") || crate::text::trimmed_starts_with(s, "func ")
        || crate::text::trimmed_starts_with(s, "def ") || crate::text::trimmed_starts_with(
        s,
        "class ",
    ) || crate::text::trimmed_starts_with(s, "impl ") || crate::text::trimmed_starts_with(
        s,
        "struct ",
    ) || crate::text::trimmed_starts_with(s, "enum ")
}

fn join_with_colons(names: &Vec<String>) -> (r: String)
    ensures
        r@ == join_names(names@),
{
    let mut r = String::new();
    let mut i: usize = 0;
    while i < names.len()
        invariant
            i <= names@.len(),
            r@ == join_names(names@.subrange(0, i as int)),
        decreases names.len() - i,
    {
        let ghost p = names@.subrange(0, i as int + 1);
        assert(p.drop_last() =~= names@.subrange(0, i as int));
        if i > 0 {
            crate::text::push_str(&mut r, "::");
        } else {
            assert(join_names(names@.subrange(0, 0)) =~= Seq::<char>::empty());
        }
        crate::text::push_str(&mut r, names[i].as_str());
        i = i + 1;
        assert(r@ =~= join_names(names@.subrange(0, i as int)));
    }
    assert(names@.subrange(0, i as int) =~= names@);
    r
}

/// The header text of a chunk: its type, its scope, and its token estimate.
pub fn chunk_label_text(m: &IndexedChunkMeta) -> (r: String)
    ensures
        r@ == label_text(*m),
{
    let mut r = String::new();
    match &m.chunk_type {
        Some(t) => crate::text::push_str(&mut r, t.as_str()),
        None => crate::text::push_str(&mut r, "chunk"),
    }
    assert(r@ =~= kind_text(*m));
    let crumb_used = match &m.breadcrumb {
        Some(c) => {
            if c.as_str().unicode_len() > 0 {
                crate::text::push_str(&mut r, " (");
                crate::text::push_str(&mut r, c.as_str());
                crate::text::push_str(&mut r, ")");
                true
            } else {
                false
            }
        },
        None => false,
    };
    if !crumb_used && m.ancestry.len() > 0 {
        let joined = join_with_colons(&m.ancestry);
        crate::text::push_str(&mut r, " (");
        crate::text::push_str(&mut r, joined.as_str());
        crate::text::push_str(&mut r, ")");
    }
    assert(r@ =~= kind_text(*m) + scope_text(*m));
    match m.estimated_tokens {
        Some(n) => {
            crate::text::push_str(&mut r, "  • ");
            crate::text::push_decimal(&mut r, n);
            crate::text::push_str(&mut r, " tokens");
        },
        None => {},
    }
    assert(r@ =~= label_text(*m));
    r
}

// ---------------------------------------------------------------------------
// The rail while it is filled
//
// The chunks enter the rail in a fixed order: by entry line, chunks carried in
// from before the window first, then by position. A cursor `(line, ph, j)`
// marks how far entry has gone: phase 0 is the carrying-in of chunks that
// started before the window, phase 1 the chunks starting on `line`.
spec fn eligible(ss: Seq<Span>, first: int, k: int) -> bool {
    (ss[k].line_start < first && ss[k].line_end >= first) || ss[k].line_start >= first
}

spec fn phase(ss: Seq<Span>, first: int, k: int) -> int {
    if starts_early(ss, first, k) {
        0
    } else {
        1
    }
}

spec fn entered(ss: Seq<Span>, first: int, line: int, ph: int, j: int, k: int) -> bool {
    &&& 0 <= k < ss.len()
    &&& eligible(ss, first, k)
    &&& (entry_line(ss, first, k) < line || (entry_line(ss, first, k) == line && (phase(
        ss,
        first,
        k,
    ) < ph || (phase(ss, first, k) == ph && k < j))))
}

spec fn latest(ss: Seq<Span>, first: int, line: int, ph: int, j: int, d: int, k: int) -> bool {
    &&& entered(ss, first, line, ph, j, k)
    &&& span_depth(ss, ss[k]) == d
    &&& forall|k2: int|
        k2 != k && #[trigger] entered(ss, first, line, ph, j, k2) && span_depth(ss, ss[k2]) == d
            ==> !enters_after(ss, first, k2, k)
}

spec fn slot_ok(
    slot: Option<usize>,
    ss: Seq<Span>,
    first: int,
    line: int,
    ph: int,
    j: int,
    d: int,
    bound: int,
) -> bool {
    match slot {
        Some(k) => latest(ss, first, line, ph, j, d, k as int) && ss[k as int].line_end >= bound,
        None => forall|k: int| #[trigger]
            latest(ss, first, line, ph, j, d, k) ==> ss[k].line_end < bound,
    }
}

spec fn slots_ok(
    slots: Seq<Option<usize>>,
    ss: Seq<Span>,
    first: int,
    line: int,
    ph: int,
    j: int,
    bound: int,
) -> bool {
    forall|d: int|
        0 <= d < slots.len() ==> slot_ok(#[trigger] slots[d], ss, first, line, ph, j, d, bound)
}

/// What the depth list holds.
spec fn depths_ok(ss: Seq<Span>, ds: Seq<usize>, md: int) -> bool {
    &&& ds.len() == ss.len()
    &&& forall|k: int| 0 <= k < ss.len() ==> ds[k] == span_depth(ss, #[trigger] ss[k])
    &&& forall|k: int| 0 <= k < ss.len() ==> #[trigger] ds[k] < md
}

proof fn lemma_order(ss: Seq<Span>, first: int, k1: int, k2: int)
    ensures
        k1 != k2 ==> enters_after(ss, first, k1, k2) || enters_after(ss, first, k2, k1),
        !(enters_after(ss, first, k1, k2) && enters_after(ss, first, k2, k1)),
{
}

proof fn lemma_same_entered(
    slots: Seq<Option<usize>>,
    ss: Seq<Span>,
    first: int,
    l1: int,
    p1: int,
    j1: int,
    l2: int,
    p2: int,
    j2: int,
    bound: int,
)
    requires
        forall|k: int| entered(ss, first, l1, p1, j1, k) == entered(ss, first, l2, p2, j2, k),
        slots_ok(slots, ss, first, l1, p1, j1, bound),
    ensures
        slots_ok(slots, ss, first, l2, p2, j2, bound),
{
    assert forall|d: int, k: int|
        latest(ss, first, l1, p1, j1, d, k) == latest(ss, first, l2, p2, j2, d, k) by {
        if latest(ss, first, l1, p1, j1, d, k) {
            assert forall|k2: int|
                k2 != k && #[trigger] entered(ss, first, l2, p2, j2, k2) && span_depth(ss, ss[k2])
                    == d implies !enters_after(ss, first, k2, k) by {
                assert(entered(ss, first, l1, p1, j1, k2));
            }
        }
        if latest(ss, first, l2, p2, j2, d, k) {
            assert forall|k2: int|
                k2 != k && #[trigger] entered(ss, first, l1, p1, j1, k2) && span_depth(ss, ss[k2])
                    == d implies !enters_after(ss, first, k2, k) by {
                assert(entered(ss, first, l2, p2, j2, k2));
            }
        }
    }
    assert forall|d: int| 0 <= d < slots.len() implies slot_ok(
        #[trigger] slots[d],
        ss,
        first,
        l2,
        p2,
        j2,
        d,
        bound,
    ) by {
        assert(slot_ok(slots[d], ss, first, l1, p1, j1, d, bound));
        match slots[d] {
            Some(k) => {},
            None => {
                assert forall|k: int| #[trigger]
                    latest(ss, first, l2, p2, j2, d, k) implies ss[k].line_end < bound by {
                    assert(latest(ss, first, l1, p1, j1, d, k));
                }
            },
        }
    }
}

/// Entering chunk `j` at the cursor `(line, ph, j)`, where it is due.
proof fn lemma_enter(
    slots: Seq<Option<usize>>,
    ss: Seq<Span>,
    ds: Seq<usize>,
    md: int,
    first: int,
    line: int,
    ph: int,
    j: int,
    bound: int,
)
    requires
        slots.len() == md,
        depths_ok(ss, ds, md),
        0 <= j < ss.len(),
        ss.len() <= usize::MAX,
        slots_ok(slots, ss, first, line, ph, j, bound),
        eligible(ss, first, j),
        entry_line(ss, first, j) == line,
        phase(ss, first, j) == ph,
        ss[j].line_end >= bound,
    ensures
        slots_ok(slots.update(ds[j] as int, Some(j as usize)), ss, first, line, ph, j + 1, bound),
{
    let dj = ds[j] as int;
    let ns = slots.update(dj, Some(j as usize));
    assert forall|k: int| entered(ss, first, line, ph, j, k) implies enters_after(ss, first, j, k)
        && k != j by {}
    assert forall|d: int| 0 <= d < ns.len() implies slot_ok(
        #[trigger] ns[d],
        ss,
        first,
        line,
        ph,
        j + 1,
        d,
        bound,
    ) by {
        assert(slot_ok(slots[d], ss, first, line, ph, j, d, bound));
        if d == dj {
            assert forall|k2: int|
                k2 != j && #[trigger] entered(ss, first, line, ph, j + 1, k2) && span_depth(
                    ss,
                    ss[k2],
                ) == d implies !enters_after(ss, first, k2, j) by {
                assert(entered(ss, first, line, ph, j, k2));
                lemma_order(ss, first, j, k2);
            }
            assert(ds[j] == span_depth(ss, ss[j]));
        } else {
            assert(ns[d] == slots[d]);
            assert forall|k: int|
                latest(ss, first, line, ph, j + 1, d, k) == latest(ss, first, line, ph, j, d, k) by {
                if latest(ss, first, line, ph, j + 1, d, k) {
                    assert(ds[j] == span_depth(ss, ss[j]));
                    assert forall|k2: int|
                        k2 != k && #[trigger] entered(ss, first, line, ph, j, k2) && span_depth(
                            ss,
                            ss[k2],
                        ) == d implies !enters_after(ss, first, k2, k) by {
                        assert(entered(ss, first, line, ph, j + 1, k2));
                    }
                }
                if latest(ss, first, line, ph, j, d, k) {
                    assert forall|k2: int|
                        k2 != k && #[trigger] entered(ss, first, line, ph, j + 1, k2) && span_depth(
                            ss,
                            ss[k2],
                        ) == d implies !enters_after(ss, first, k2, k) by {
                        if k2 != j {
                            assert(entered(ss, first, line, ph, j, k2));
                        } else {
                            assert(ds[j] == span_depth(ss, ss[j]));
                        }
                    }
                }
            }
            match slots[d] {
                Some(k) => {},
                None => {
                    assert forall|k: int| #[trigger]
                        latest(ss, first, line, ph, j + 1, d, k) implies ss[k].line_end < bound by {
                        assert(latest(ss, first, line, ph, j, d, k));
                    }
                },
            }
        }
    }
}

/// Passing over chunk `j`, which is not due at the cursor.
proof fn lemma_skip(
    slots: Seq<Option<usize>>,
    ss: Seq<Span>,
    first: int,
    line: int,
    ph: int,
    j: int,
    bound: int,
)
    requires
        0 <= j < ss.len(),
        slots_ok(slots, ss, first, line, ph, j, bound),
        !(eligible(ss, first, j) && entry_line(ss, first, j) == line && phase(ss, first, j) == ph),
    ensures
        slots_ok(slots, ss, first, line, ph, j + 1, bound),
{
    lemma_same_entered(slots, ss, first, line, ph, j, line, ph, j + 1, bound);
}

proof fn lemma_latest_unique(
    ss: Seq<Span>,
    first: int,
    line: int,
    ph: int,
    j: int,
    d: int,
    k1: int,
    k2: int,
)
    requires
        latest(ss, first, line, ph, j, d, k1),
        latest(ss, first, line, ph, j, d, k2),
    ensures
        k1 == k2,
{
    if k1 != k2 {
        lemma_order(ss, first, k1, k2);
        assert(entered(ss, first, line, ph, j, k2));
        assert(entered(ss, first, line, ph, j, k1));
    }
}

/// On a visible line, the slot holds exactly the chunk that occupies it.
proof fn lemma_slot_occupant(
    slot: Option<usize>,
    ss: Seq<Span>,
    first: int,
    line: int,
    d: int,
)
    requires
        first <= line,
        slot_ok(slot, ss, first, line, 2, 0, d, line),
    ensures
        match slot {
            Some(k) => occupied(ss, first, line, d) && occupant(ss, first, line, d) == k as int,
            None => !occupied(ss, first, line, d),
        },
{
    assert forall|k: int| #[trigger]
        latest(ss, first, line, 2, 0, d, k) == last_entered(ss, first, line, d, k) by {
        if latest(ss, first, line, 2, 0, d, k) {
            assert forall|k2: int|
                0 <= k2 < ss.len() && k2 != k && placed(ss, first, line, k2) && span_depth(
                    ss,
                    ss[k2],
                ) == d implies !enters_after(ss, first, k2, k) by {
                assert(entered(ss, first, line, 2, 0, k2));
            }
        }
        if last_entered(ss, first, line, d, k) {
            assert forall|k2: int|
                k2 != k && #[trigger] entered(ss, first, line, 2, 0, k2) && span_depth(ss, ss[k2])
                    == d implies !enters_after(ss, first, k2, k) by {
                assert(placed(ss, first, line, k2));
            }
        }
    }
    match slot {
        Some(k) => {
            assert(occupies(ss, first, line, d, k as int));
            let o = occupant(ss, first, line, d);
            lemma_latest_unique(ss, first, line, 2, 0, d, o, k as int);
        },
        None => {
            if occupied(ss, first, line, d) {
                let o = occupant(ss, first, line, d);
                assert(latest(ss, first, line, 2, 0, d, o));
            }
        },
    }
}

fn empty_slots(md: usize) -> (r: Vec<Option<usize>>)
    ensures
        r@.len() == md,
        forall|d: int| 0 <= d < md ==> r@[d] is None,
{
    let mut r: Vec<Option<usize>> = Vec::new();
    let mut d: usize = 0;
    while d < md
        invariant
            d <= md,
            r@.len() == d,
            forall|x: int| 0 <= x < d ==> r@[x] is None,
        decreases md - d,
    {
        r.push(None);
        d = d + 1;
    }
    r
}

/// The rail before the first visible line: each chunk that started earlier
/// and is still open there sits in the column of its depth.
fn prepopulate(ss: &Vec<Span>, ds: &Vec<usize>, md: usize, first: usize) -> (r: Vec<
    Option<usize>,
>)
    requires
        depths_ok(ss@, ds@, md as int),
    ensures
        r@.len() == md,
        slots_ok(r@, ss@, first as int, first as int, 1, 0, first as int),
{
    let mut slots = empty_slots(md);
    let ghost f = first as int;
    assert forall|d: int| 0 <= d < slots@.len() implies slot_ok(
        #[trigger] slots@[d],
        ss@,
        f,
        f,
        0,
        0,
        d,
        f,
    ) by {
        assert forall|k: int| #[trigger] latest(ss@, f, f, 0, 0, d, k) implies ss@[k].line_end
            < f by {}
    }
    let mut j: usize = 0;
    while j < ss.len()
        invariant
            f == first as int,
            depths_ok(ss@, ds@, md as int),
            j <= ss@.len(),
            slots@.len() == md,
            slots_ok(slots@, ss@, f, f, 0, j as int, f),
        decreases ss.len() - j,
    {
        if ss[j].line_start < first && ss[j].line_end >= first {
            proof {
                lemma_enter(slots@, ss@, ds@, md as int, f, f, 0, j as int, f);
            }
            slots.set(ds[j], Some(j));
        } else {
            proof {
                lemma_skip(slots@, ss@, f, f, 0, j as int, f);
            }
        }
        j = j + 1;
    }
    proof {
        lemma_same_entered(slots@, ss@, f, f, 0, j as int, f, 1, 0, f);
    }
    slots
}

/// Places each chunk that starts on `line` in the column of its depth.
fn activate(
    slots: &mut Vec<Option<usize>>,
    ss: &Vec<Span>,
    ds: &Vec<usize>,
    md: usize,
    first: usize,
    line: usize,
)
    requires
        first <= line,
        depths_ok(ss@, ds@, md as int),
        forall|k: int| 0 <= k < ss@.len() ==> (#[trigger] ss@[k]).valid(),
        old(slots)@.len() == md,
        slots_ok(old(slots)@, ss@, first as int, line as int, 1, 0, line as int),
    ensures
        final(slots)@.len() == md,
        slots_ok(final(slots)@, ss@, first as int, line as int, 2, 0, line as int),
{
    let ghost f = first as int;
    let ghost l = line as int;
    let mut j: usize = 0;
    while j < ss.len()
        invariant
            f == first as int,
            l == line as int,
            first <= line,
            depths_ok(ss@, ds@, md as int),
            forall|k: int| 0 <= k < ss@.len() ==> (#[trigger] ss@[k]).valid(),
            j <= ss@.len(),
            slots@.len() == md,
            slots_ok(slots@, ss@, f, l, 1, j as int, l),
        decreases ss.len() - j,
    {
        if ss[j].line_start == line {
            proof {
                assert(ss@[j as int].valid());
                lemma_enter(slots@, ss@, ds@, md as int, f, l, 1, j as int, l);
            }
            slots.set(ds[j], Some(j));
        } else {
            proof {
                lemma_skip(slots@, ss@, f, l, 1, j as int, l);
            }
        }
        j = j + 1;
    }
    proof {
        lemma_same_entered(slots@, ss@, f, l, 1, j as int, l, 2, 0, l);
    }
}

/// Empties each column whose chunk ended before `line`.
fn expire_before(slots: &mut Vec<Option<usize>>, ss: &Vec<Span>, first: usize, line: usize)
    requires
        slots_ok(old(slots)@, ss@, first as int, line as int, 1, 0, line as int),
        forall|d: int| 0 <= d < old(slots)@.len() ==> match #[trigger] old(slots)@[d] {
            Some(k) => k < ss@.len(),
            None => true,
        },
    ensures
        final(slots)@.len() == old(slots)@.len(),
        slots_ok(final(slots)@, ss@, first as int, line as int, 1, 0, line as int),
{
    let ghost f = first as int;
    let ghost l = line as int;
    let mut d: usize = 0;
    while d < slots.len()
        invariant
            f == first as int,
            l == line as int,
            d <= slots@.len(),
            slots@.len() == old(slots)@.len(),
            slots_ok(slots@, ss@, f, l, 1, 0, l),
            forall|x: int| 0 <= x < slots@.len() ==> match #[trigger] slots@[x] {
                Some(k) => k < ss@.len(),
                None => true,
            },
        decreases slots.len() - d,
    {
        if let Some(k) = slots[d] {
            if ss[k].line_end < line {
                assert(slot_ok(slots@[d as int], ss@, f, l, 1, 0, d as int, l));
                slots.set(d, None);
            }
        }
        d = d + 1;
    }
}

/// Empties each column whose chunk ends on `line`.
fn expire_ended(slots: &mut Vec<Option<usize>>, ss: &Vec<Span>, first: usize, line: usize)
    requires
        slots_ok(old(slots)@, ss@, first as int, line as int, 2, 0, line as int),
        forall|d: int| 0 <= d < old(slots)@.len() ==> match #[trigger] old(slots)@[d] {
            Some(k) => k < ss@.len(),
            None => true,
        },
    ensures
        final(slots)@.len() == old(slots)@.len(),
        slots_ok(final(slots)@, ss@, first as int, line as int, 2, 0, line + 1),
        forall|d: int| 0 <= d < final(slots)@.len() ==> match #[trigger] final(slots)@[d] {
            Some(k) => k < ss@.len(),
            None => true,
        },
{
    let ghost f = first as int;
    let ghost l = line as int;
    let mut d: usize = 0;
    while d < slots.len()
        invariant
            f == first as int,
            l == line as int,
            d <= slots@.len(),
            slots@.len() == old(slots)@.len(),
            forall|x: int|
                0 <= x < d ==> slot_ok(#[trigger] slots@[x], ss@, f, l, 2, 0, x, l + 1),
            forall|x: int|
                d <= x < slots@.len() ==> slot_ok(#[trigger] slots@[x], ss@, f, l, 2, 0, x, l),
            forall|x: int| 0 <= x < slots@.len() ==> match #[trigger] slots@[x] {
                Some(k) => k < ss@.len(),
                None => true,
            },
        decreases slots.len() - d,
    {
        assert(slot_ok(slots@[d as int], ss@, f, l, 2, 0, d as int, l));
        if let Some(k) = slots[d] {
            if ss[k].line_end == line {
                proof {
                    assert forall|k2: int| #[trigger]
                        latest(ss@, f, l, 2, 0, d as int, k2) implies ss@[k2].line_end < l + 1 by {
                        lemma_latest_unique(ss@, f, l, 2, 0, d as int, k2, k as int);
                    }
                }
                slots.set(d, None);
            }
        }
        d = d + 1;
    }
}

proof fn lemma_slots_in_range(
    slots: Seq<Option<usize>>,
    ss: Seq<Span>,
    first: int,
    line: int,
    ph: int,
    j: int,
    bound: int,
)
    requires
        slots_ok(slots, ss, first, line, ph, j, bound),
    ensures
        forall|d: int| 0 <= d < slots.len() ==> match #[trigger] slots[d] {
            Some(k) => k < ss.len(),
            None => true,
        },
{
    assert forall|d: int| 0 <= d < slots.len() implies match #[trigger] slots[d] {
        Some(k) => k < ss.len(),
        None => true,
    } by {
        assert(slot_ok(slots[d], ss, first, line, ph, j, d, bound));
    }
}

/// The rail columns of `line`, and whether any of them is occupied.
fn rail_columns(
    slots: &Vec<Option<usize>>,
    ss: &Vec<Span>,
    first: usize,
    line: usize,
    matched: Option<&IndexedChunkMeta>,
) -> (r: (Vec<ChunkColumnChar>, bool))
    requires
        first <= line,
        slots@.len() == rail_width(ss@),
        slots_ok(slots@, ss@, first as int, line as int, 2, 0, line as int),
    ensures
        r.0@ == Seq::new(
            rail_width(ss@) as nat,
            |d: int| rail_column(ss@, first as int, line as int, d, deref_opt(matched)),
        ),
        r.1 == any_occupied(ss@, first as int, line as int),
{
    let ghost f = first as int;
    let ghost l = line as int;
    let ghost m = deref_opt(matched);
    let mut cols: Vec<ChunkColumnChar> = Vec::new();
    let mut any = false;
    let mut d: usize = 0;
    while d < slots.len()
        invariant
            f == first as int,
            l == line as int,
            m == deref_opt(matched),
            first <= line,
            slots@.len() == rail_width(ss@),
            slots_ok(slots@, ss@, f, l, 2, 0, l),
            d <= slots@.len(),
            cols@.len() == d,
            forall|x: int| 0 <= x < d ==> cols@[x] == rail_column(ss@, f, l, x, m),
            any == exists|x: int| 0 <= x < d && occupied(ss@, f, l, x),
        decreases slots.len() - d,
    {
        assert(slot_ok(slots@[d as int], ss@, f, l, 2, 0, d as int, l));
        proof {
            lemma_slot_occupant(slots@[d as int], ss@, f, l, d as int);
        }
        match slots[d] {
            Some(k) => {
                assert(latest(ss@, f, l, 2, 0, d as int, k as int));
                let sp = ss[k];
                cols.push(ChunkColumnChar { ch: rail_symbol_of(sp, line), is_match: same_span(matched, sp) });
                any = true;
            },
            None => {
                cols.push(ChunkColumnChar { ch: ' ', is_match: false });
            },
        }
        d = d + 1;
    }
    assert(cols@ =~= Seq::new(rail_width(ss@) as nat, |x: int| rail_column(ss@, f, l, x, m)));
    (cols, any)
}

/// The rows of the display of lines `context_start + 1 ..= context_end`.
///
/// Each visible line gives one content row: its rail columns, one per depth
/// level, beside the line's number and text. Just above the first line of the
/// matched chunk comes a header row. Text chunks are drawn in the first column
/// on lines that no structural chunk covers. A file without chunks marks the
/// lines that open a definition instead. When chunks exist but none matched,
/// and the whole file is not being shown, a closing message says so.
pub fn collect_chunk_display_lines(
    lines: &[String],
    context_start: usize,
    context_end: usize,
    match_line: usize,
    chunk_meta: Option<&IndexedChunkMeta>,
    all_chunks: &[IndexedChunkMeta],
    full_file_mode: bool,
) -> (rows: Vec<ChunkDisplayLine>)
    requires
        context_start <= context_end <= lines@.len(),
        context_end < usize::MAX,
        all_valid(all_chunks@),
    ensures
        rows_view(rows@) == display_rows(
            lines@,
            context_start as int,
            context_end as int,
            match_line as int,
            deref_opt(chunk_meta),
            all_chunks@,
            full_file_mode,
        ),
{
    let ghost matched = deref_opt(chunk_meta);
    let ghost chunks = all_chunks@;
    let mut rows: Vec<ChunkDisplayLine> = Vec::new();
    let first = context_start + 1;
    let ss = structural_span_list(all_chunks);
    proof {
        lemma_structural_valid(chunks);
    }
    let (ds, md) = depths_and_width(&ss);
    let mut slots = prepopulate(&ss, &ds, md, first);
    let mut line = first;
    while line <= context_end
        invariant
            matched == deref_opt(chunk_meta),
            chunks == all_chunks@,
            first == context_start + 1,
            first <= line <= context_end + 1,
            context_end <= lines@.len(),
            context_end < usize::MAX,
            ss@ == structural_spans(chunks),
            forall|k: int| 0 <= k < ss@.len() ==> (#[trigger] ss@[k]).valid(),
            depths_ok(ss@, ds@, md as int),
            md == rail_width(ss@),
            slots@.len() == md,
            slots_ok(slots@, ss@, first as int, line as int, 1, 0, line as int),
            rows_view(rows@) == rows_upto(
                lines@,
                chunks,
                first as int,
                line - first,
                match_line as int,
                matched,
            ),
        decreases context_end + 1 - line,
    {
        let ghost before = rows_view(rows@);
        proof {
            lemma_slots_in_range(slots@, ss@, first as int, line as int, 1, 0, line as int);
        }
        expire_before(&mut slots, &ss, first, line);
        activate(&mut slots, &ss, &ds, md, first, line);
        if let Some(m) = chunk_meta {
            if line == m.span.line_start {
                rows.push(ChunkDisplayLine::Label { prefix: md, text: chunk_label_text(m) });
            }
        }
        let text = lines[line - 1].clone();
        if all_chunks.len() == 0 {
            let boundary = is_boundary(&text);
            let columns = if boundary {
                vec![
                    ChunkColumnChar { ch: '┣', is_match: false },
                    ChunkColumnChar { ch: '━', is_match: false },
                ]
            } else {
                Vec::new()
            };
            assert(columns@ =~= boundary_columns(text@));
            rows.push(
                ChunkDisplayLine::Content {
                    columns,
                    line_num: line,
                    text,
                    is_match_line: line == match_line,
                    in_matched_chunk: false,
                    has_any_chunk: boundary,
                },
            );
        } else {
            let text_here = find_text_chunk(all_chunks, line);
            let (mut columns, any_structural) = rail_columns(&slots, &ss, first, line, chunk_meta);
            if !any_structural {
                if let Some(t) = text_here {
                    let ch = text_symbol_of(all_chunks[t].span, line);
                    columns.set(0, ChunkColumnChar { ch, is_match: false });
                }
            }
            assert(columns@ =~= line_columns(chunks, first as int, line as int, matched));
            let in_matched = match chunk_meta {
                Some(m) => m.span.line_start <= line && line <= m.span.line_end,
                None => false,
            };
            rows.push(
                ChunkDisplayLine::Content {
                    columns,
                    line_num: line,
                    text,
                    is_match_line: line == match_line,
                    in_matched_chunk: in_matched,
                    has_any_chunk: any_structural || text_here.is_some(),
                },
            );
        }
        proof {
            lemma_slots_in_range(slots@, ss@, first as int, line as int, 2, 0, line as int);
        }
        expire_ended(&mut slots, &ss, first, line);
        proof {
            lemma_same_entered(
                slots@,
                ss@,
                first as int,
                line as int,
                2,
                0,
                line + 1,
                1,
                0,
                line + 1,
            );
            assert(rows_view(rows@) =~= before + line_rows(
                lines@,
                chunks,
                first as int,
                line as int,
                match_line as int,
                matched,
            ));
        }
        line = line + 1;
    }
    if !full_file_mode && chunk_meta.is_none() && all_chunks.len() > 0 {
        rows.push(
            ChunkDisplayLine::Message(
                String::from_str(
                    "Chunk metadata available but no matching chunk found for this line.",
                ),
            ),
        );
    }
    assert(rows_view(rows@) =~= display_rows(
        lines@,
        context_start as int,
        context_end as int,
        match_line as int,
        matched,
        chunks,
        full_file_mode,
    ));
    rows
}

// ---------------------------------------------------------------------------
// Laws of the display
/// A chunk on a single line shows one symbol; a longer chunk shows a start
/// symbol on its first line, an end symbol on its last, and a connector on
/// every line between, the four symbols all distinct.
pub proof fn lemma_rail_symbols(s: Span, line: int)
    requires
        s.valid(),
        s.covers(line),
    ensures
        s.line_start == s.line_end ==> rail_symbol(s, line) == '─',
        s.line_start < s.line_end && line == s.line_start ==> rail_symbol(s, line) == '┌',
        s.line_start < s.line_end && line == s.line_end ==> rail_symbol(s, line) == '└',
        s.line_start < line < s.line_end ==> rail_symbol(s, line) == '│',
        '─' != '┌' && '─' != '└' && '─' != '│' && '┌' != '└' && '┌' != '│' && '└' != '│',
{
}

/// A column is marked as matching exactly when the chunk occupying it has the
/// matched chunk's span.
pub proof fn lemma_match_columns(
    chunks: Seq<IndexedChunkMeta>,
    first: int,
    line: int,
    matched: Option<IndexedChunkMeta>,
    d: int,
)
    requires
        0 <= d < rail_width(structural_spans(chunks)),
    ensures
        line_columns(chunks, first, line, matched)[d].is_match == (occupied(
            structural_spans(chunks),
            first,
            line,
            d,
        ) && matches_span(
            matched,
            structural_spans(chunks)[occupant(structural_spans(chunks), first, line, d)],
        )),
{
    let ss = structural_spans(chunks);
    if d == 0 && text_chunk_at(chunks, line) is Some && !any_occupied(ss, first, line) {
        assert(!occupied(ss, first, line, 0));
    }
}

/// In a file without chunks, a line that opens a definition gets the
/// two-symbol boundary marker and counts as covered; any other line gets no
/// columns and is not covered.
pub proof fn lemma_fallback_rows(
    lines: Seq<String>,
    first: int,
    line: int,
    match_line: int,
    matched: Option<IndexedChunkMeta>,
)
    requires
        1 <= line <= lines.len(),
    ensures
        match content_row(lines, Seq::empty(), first, line, match_line, matched) {
            DisplayRow::Content { columns, has_any_chunk, .. } => {
                &&& is_boundary_line(lines[line - 1]@) ==> columns == seq![
                    ChunkColumnChar { ch: '┣', is_match: false },
                    ChunkColumnChar { ch: '━', is_match: false },
                ] && has_any_chunk
                &&& !is_boundary_line(lines[line - 1]@) ==> columns.len() == 0 && !has_any_chunk
            },
            _ => false,
        },
{
}

proof fn lemma_rows_have_no_message(
    lines: Seq<String>,
    chunks: Seq<IndexedChunkMeta>,
    first: int,
    n: int,
    match_line: int,
    matched: Option<IndexedChunkMeta>,
)
    ensures
        forall|i: int|
            0 <= i < rows_upto(lines, chunks, first, n, match_line, matched).len() ==> !(
            #[trigger] rows_upto(lines, chunks, first, n, match_line, matched)[i] is Message),
    decreases n,
{
    if n > 0 {
        lemma_rows_have_no_message(lines, chunks, first, n - 1, match_line, matched);
        let a = rows_upto(lines, chunks, first, n - 1, match_line, matched);
        let b = line_rows(lines, chunks, first, first + n - 1, match_line, matched);
        assert forall|i: int| 0 <= i < (a + b).len() implies !(#[trigger] (a + b)[i] is Message) by {
            if i >= a.len() {
                assert((a + b)[i] == b[i - a.len()]);
            }
        }
    }
}

/// With chunks present and none matched, the display ends with the fixed
/// message when only part of the file is shown, and holds no message at all
/// when the whole file is shown.
pub proof fn lemma_trailing_message(
    lines: Seq<String>,
    context_start: int,
    context_end: int,
    match_line: int,
    chunks: Seq<IndexedChunkMeta>,
)
    requires
        chunks.len() > 0,
    ensures
        display_rows(lines, context_start, context_end, match_line, None, chunks, false).last()
            == DisplayRow::Message(no_match_message()),
        forall|i: int|
            0 <= i < display_rows(
                lines,
                context_start,
                context_end,
                match_line,
                None,
                chunks,
                true,
            ).len() ==> !(#[trigger] display_rows(
                lines,
                context_start,
                context_end,
                match_line,
                None,
                chunks,
                true,
            )[i] is Message),
{
    lemma_rows_have_no_message(
        lines,
        chunks,
        context_start + 1,
        context_end - context_start,
        match_line,
        None,
    );
}

} // verus!
