//! Conversion of chunks as the chunker produces them into display records.
use vstd::prelude::*;
use vstd::string::*;
use crate::chunk::{IndexedChunkMeta, Span};
use crate::text::string_seq_view;

verus! {

/// The kind of a chunk found by the chunker.
#[derive(Clone, Copy, PartialEq, Eq, Structural, Debug)]
pub enum ChunkType {
    Function,
    Class,
    Method,
    Module,
    TypeSpec,
    Documentation,
    Text,
}

/// What the chunker records about a chunk besides its span and kind.
#[derive(Clone, Debug)]
pub struct ChunkMetadata {
    pub breadcrumb: Option<String>,
    pub ancestry: Vec<String>,
    pub byte_length: usize,
    pub estimated_tokens: usize,
    pub leading_trivia: Vec<String>,
    pub trailing_trivia: Vec<String>,
}

/// A chunk as the chunker produces it.
#[derive(Clone, Debug)]
pub struct Chunk {
    pub span: Span,
    pub chunk_type: ChunkType,
    pub metadata: ChunkMetadata,
}

/// The display name of a chunk kind.
pub open spec fn kind_name(t: ChunkType) -> Seq<char> {
    match t {
        ChunkType::Function => "function"@,
        ChunkType::Class => "class"@,
        ChunkType::Method => "method"@,
        ChunkType::Module => "module"@,
        ChunkType::TypeSpec => "typespec"@,
        ChunkType::Documentation => "documentation"@,
        ChunkType::Text => "text"@,
    }
}

pub open spec fn opt_view(o: Option<String>) -> Option<Seq<char>> {
    match o {
        Some(s) => Some(s@),
        None => None,
    }
}

pub open spec fn opt_views(o: Option<Vec<String>>) -> Option<Seq<Seq<char>>> {
    match o {
        Some(v) => Some(string_seq_view(v@)),
        None => None,
    }
}

/// `m` carries over every field of `c`, with the kind as its display name.
pub open spec fn adapted(c: Chunk, m: IndexedChunkMeta) -> bool {
    &&& m.span == c.span
    &&& opt_view(m.chunk_type) == Some(kind_name(c.chunk_type))
    &&& opt_view(m.breadcrumb) == opt_view(c.metadata.breadcrumb)
    &&& string_seq_view(m.ancestry@) == string_seq_view(c.metadata.ancestry@)
    &&& m.estimated_tokens == Some(c.metadata.estimated_tokens)
    &&& m.byte_length == Some(c.metadata.byte_length)
    &&& opt_views(m.leading_trivia) == Some(string_seq_view(c.metadata.leading_trivia@))
    &&& opt_views(m.trailing_trivia) == Some(string_seq_view(c.metadata.trailing_trivia@))
}

/// The display name of a chunk kind.
pub fn chunk_type_name(t: ChunkType) -> (r: String)
    ensures
        r@ == kind_name(t),
{
    match t {
        ChunkType::Function => String::from_str("function"),
        ChunkType::Class => String::from_str("class"),
        ChunkType::Method => String::from_str("method"),
        ChunkType::Module => String::from_str("module"),
        ChunkType::TypeSpec => String::from_str("typespec"),
        ChunkType::Documentation => String::from_str("documentation"),
        ChunkType::Text => String::from_str("text"),
    }
}

fn copy_strings(v: &Vec<String>) -> (r: Vec<String>)
    ensures
        string_seq_view(r@) == string_seq_view(v@),
{
    let mut r: Vec<String> = Vec::new();
    let mut i: usize = 0;
    while i < v.len()
        invariant
            i <= v@.len(),
            r@.len() == i,
            forall|j: int| 0 <= j < i ==> (#[trigger] r@[j])@ == v@[j]@,
        decreases v.len() - i,
    {
        r.push(v[i].clone());
        i = i + 1;
    }
    assert(string_seq_view(r@) =~= string_seq_view(v@));
    r
}

fn copy_opt_string(o: &Option<String>) -> (r: Option<String>)
    ensures
        opt_view(r) == opt_view(*o),
{
    match o {
        Some(s) => Some(s.clone()),
        None => None,
    }
}

/// The display record of one chunk.
pub fn chunk_to_meta(c: &Chunk) -> (m: IndexedChunkMeta)
    ensures
        adapted(*c, m),
{
    IndexedChunkMeta {
        span: c.span,
        chunk_type: Some(chunk_type_name(c.chunk_type)),
        breadcrumb: copy_opt_string(&c.metadata.breadcrumb),
        ancestry: copy_strings(&c.metadata.ancestry),
        estimated_tokens: Some(c.metadata.estimated_tokens),
        byte_length: Some(c.metadata.byte_length),
        leading_trivia: Some(copy_strings(&c.metadata.leading_trivia)),
        trailing_trivia: Some(copy_strings(&c.metadata.trailing_trivia)),
    }
}

/// The display records of the chunks, in the same order.
pub fn convert_chunks_to_meta(chunks: Vec<Chunk>) -> (r: Vec<IndexedChunkMeta>)
    ensures
        r@.len() == chunks@.len(),
        forall|i: int| 0 <= i < chunks@.len() ==> adapted(chunks@[i], #[trigger] r@[i]),
{
    let mut r: Vec<IndexedChunkMeta> = Vec::new();
    let mut i: usize = 0;
    while i < chunks.len()
        invariant
            i <= chunks@.len(),
            r@.len() == i,
            forall|j: int| 0 <= j < i ==> adapted(chunks@[j], #[trigger] r@[j]),
        decreases chunks.len() - i,
    {
        r.push(chunk_to_meta(&chunks[i]));
        i = i + 1;
    }
    r
}

} // verus!
