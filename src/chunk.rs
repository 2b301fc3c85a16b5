//! Chunk records: a chunk's line span and its descriptive metadata.
use vstd::prelude::*;

verus! {

/// An inclusive, 1-indexed range of lines.
#[derive(Clone, Copy, PartialEq, Eq, Structural, Debug)]
pub struct Span {
    pub line_start: usize,
    pub line_end: usize,
}

impl Span {
    pub open spec fn valid(self) -> bool {
        self.line_start <= self.line_end
    }

    pub open spec fn key(self) -> (usize, usize) {
        (self.line_start, self.line_end)
    }

    pub open spec fn covers(self, line: int) -> bool {
        self.line_start <= line <= self.line_end
    }
}

/// A chunk of a file as the display works with it.
#[derive(Clone, Debug)]
pub struct IndexedChunkMeta {
    pub span: Span,
    pub chunk_type: Option<String>,
    pub breadcrumb: Option<String>,
    pub ancestry: Vec<String>,
    pub estimated_tokens: Option<usize>,
    pub byte_length: Option<usize>,
    pub leading_trivia: Option<Vec<String>>,
    pub trailing_trivia: Option<Vec<String>>,
}

/// A text chunk (imports, comments) is one whose type is exactly `text`; every
/// other chunk, untyped ones included, is structural.
pub open spec fn is_text(c: IndexedChunkMeta) -> bool {
    match c.chunk_type {
        Some(t) => t@ == "text"@,
        None => false,
    }
}

pub open spec fn spans_of(chunks: Seq<IndexedChunkMeta>) -> Seq<Span> {
    chunks.map_values(|c: IndexedChunkMeta| c.span)
}

pub open spec fn all_valid(chunks: Seq<IndexedChunkMeta>) -> bool {
    forall|i: int| 0 <= i < chunks.len() ==> (#[trigger] chunks[i]).span.valid()
}

/// The spans of the chunks, in order.
pub fn chunk_spans(chunks: &[IndexedChunkMeta]) -> (r: Vec<Span>)
    ensures
        r@ == spans_of(chunks@),
{
    let mut r: Vec<Span> = Vec::new();
    let mut i: usize = 0;
    while i < chunks.len()
        invariant
            i <= chunks@.len(),
            r@ == spans_of(chunks@.subrange(0, i as int)),
        decreases chunks.len() - i,
    {
        r.push(chunks[i].span);
        i = i + 1;
        assert(r@ =~= spans_of(chunks@.subrange(0, i as int)));
    }
    assert(chunks@.subrange(0, i as int) =~= chunks@);
    r
}

/// Whether the chunk is a text chunk.
pub fn is_text_chunk(c: &IndexedChunkMeta) -> (r: bool)
    ensures
        r == is_text(*c),
{
    match &c.chunk_type {
        Some(t) => crate::text::str_equals(t.as_str(), "text"),
        None => false,
    }
}

} // verus!
