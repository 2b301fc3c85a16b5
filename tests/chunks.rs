use ck_tui::adapter::{convert_chunks_to_meta, Chunk, ChunkMetadata, ChunkType};
use ck_tui::chunk::{IndexedChunkMeta, Span};
use ck_tui::depth::{calculate_chunk_depths, calculate_max_depth};
use ck_tui::display::{chunk_label_text, collect_chunk_display_lines, ChunkColumnChar, ChunkDisplayLine};
use ck_tui::render::chunk_display_line_to_string;
use ck_tui::text::split_lines;

fn meta(start: usize, end: usize, kind: Option<&str>) -> IndexedChunkMeta {
    IndexedChunkMeta {
        span: Span { line_start: start, line_end: end },
        chunk_type: kind.map(|k| k.to_string()),
        breadcrumb: None,
        ancestry: Vec::new(),
        estimated_tokens: None,
        byte_length: None,
        leading_trivia: None,
        trailing_trivia: None,
    }
}

fn numbered_lines(n: usize) -> Vec<String> {
    (1..=n).map(|i| format!("line {}", i)).collect()
}

fn symbols(cols: &[ChunkColumnChar]) -> String {
    cols.iter().map(|c| c.ch).collect()
}

fn matches(cols: &[ChunkColumnChar]) -> Vec<bool> {
    cols.iter().map(|c| c.is_match).collect()
}

/// The content rows as (line, symbols, match flags, has_any_chunk).
fn contents(rows: &[ChunkDisplayLine]) -> Vec<(usize, String, Vec<bool>, bool)> {
    rows.iter()
        .filter_map(|r| match r {
            ChunkDisplayLine::Content { columns, line_num, has_any_chunk, .. } => {
                Some((*line_num, symbols(columns), matches(columns), *has_any_chunk))
            }
            _ => None,
        })
        .collect()
}

#[test]
fn boundary_sharing_chunk_is_not_nested() {
    let chunks = vec![meta(1, 5, Some("function")), meta(5, 10, Some("function"))];
    let depths = calculate_chunk_depths(&chunks);
    assert_eq!(depths.get(1, 5), Some(0));
    assert_eq!(depths.get(5, 10), Some(0));
    assert_eq!(calculate_max_depth(&chunks), 1);
}

#[test]
fn siblings_share_a_depth() {
    let chunks = vec![
        meta(1, 10, Some("class")),
        meta(2, 5, Some("method")),
        meta(6, 9, Some("method")),
    ];
    let depths = calculate_chunk_depths(&chunks);
    assert_eq!(depths.get(1, 10), Some(0));
    assert_eq!(depths.get(2, 5), Some(1));
    assert_eq!(depths.get(6, 9), Some(1));
    assert_eq!(depths.len(), 3);
    assert_eq!(calculate_max_depth(&chunks), 2);
}

#[test]
fn depth_ignores_input_order() {
    let chunks = vec![
        meta(6, 9, Some("method")),
        meta(2, 5, Some("method")),
        meta(1, 10, Some("class")),
        meta(3, 4, None),
    ];
    let depths = calculate_chunk_depths(&chunks);
    assert_eq!(depths.get(1, 10), Some(0));
    assert_eq!(depths.get(2, 5), Some(1));
    assert_eq!(depths.get(3, 4), Some(2));
    assert_eq!(depths.get(6, 9), Some(1));
    assert_eq!(depths.get(7, 8), None);
    assert_eq!(calculate_max_depth(&chunks), 3);
}

#[test]
fn same_start_longer_chunk_is_shallower() {
    let chunks = vec![meta(1, 3, None), meta(1, 8, None)];
    let depths = calculate_chunk_depths(&chunks);
    assert_eq!(depths.get(1, 8), Some(0));
    assert_eq!(depths.get(1, 3), Some(1));
}

#[test]
fn max_depth_of_no_chunks_is_one() {
    let chunks: Vec<IndexedChunkMeta> = Vec::new();
    assert_eq!(calculate_max_depth(&chunks), 1);
    assert_eq!(calculate_chunk_depths(&chunks).len(), 0);
}

// Two chunks with the same span keep one entry; the later one counts the
// earlier as an open ancestor, so the shared depth is one deeper.
#[test]
fn duplicate_spans_collapse_to_one_entry() {
    let chunks = vec![
        meta(1, 10, Some("class")),
        meta(2, 5, Some("method")),
        meta(2, 5, Some("documentation")),
    ];
    let depths = calculate_chunk_depths(&chunks);
    assert_eq!(depths.len(), 2);
    assert_eq!(depths.get(1, 10), Some(0));
    assert_eq!(depths.get(2, 5), Some(2));
    assert_eq!(calculate_max_depth(&chunks), 3);
}

#[test]
fn duplicate_single_line_spans_share_depth_zero() {
    let chunks = vec![meta(3, 3, None), meta(3, 3, None)];
    let depths = calculate_chunk_depths(&chunks);
    assert_eq!(depths.len(), 1);
    assert_eq!(depths.get(3, 3), Some(0));
}

#[test]
fn column_symbols_for_three_and_ten_line_chunks() {
    let lines = numbered_lines(12);
    let chunks = vec![meta(1, 10, Some("function")), meta(3, 5, Some("class")), meta(12, 12, None)];
    let rows = collect_chunk_display_lines(&lines, 0, 12, 1, None, &chunks, true);
    let got: Vec<String> = contents(&rows).into_iter().map(|c| c.1).collect();
    let want = vec![
        "┌ ", "│ ", "│┌", "││", "│└", "│ ", "│ ", "│ ", "│ ", "└ ", "  ", "─ ",
    ];
    assert_eq!(got, want);
    assert_eq!(rows.len(), 12);
}

#[test]
fn end_to_end_nested_chunks_with_match() {
    let lines = numbered_lines(10);
    let chunks = vec![
        meta(1, 10, Some("function")),
        meta(2, 5, Some("class")),
        meta(6, 9, Some("method")),
    ];
    let matched = chunks[1].clone();
    let rows = collect_chunk_display_lines(&lines, 0, 10, 3, Some(&matched), &chunks, false);
    assert_eq!(rows.len(), 11);
    match &rows[1] {
        ChunkDisplayLine::Label { prefix, text } => {
            assert_eq!(*prefix, 2);
            assert_eq!(text, "class");
        }
        _ => panic!("expected a label before line 2"),
    }
    match &rows[2] {
        ChunkDisplayLine::Content { line_num, .. } => assert_eq!(*line_num, 2),
        _ => panic!("expected line 2 after the label"),
    }
    let c = contents(&rows);
    let syms: Vec<&str> = c.iter().map(|x| x.1.as_str()).collect();
    assert_eq!(syms, vec!["┌ ", "│┌", "││", "││", "│└", "│┌", "││", "││", "│└", "└ "]);
    for (line, _, flags, any) in &c {
        let in_class = (2..=5).contains(line);
        assert_eq!(flags, &vec![false, in_class]);
        assert!(*any);
    }
    match &rows[3] {
        ChunkDisplayLine::Content { is_match_line, in_matched_chunk, .. } => {
            assert!(*is_match_line);
            assert!(*in_matched_chunk);
        }
        _ => panic!("expected content"),
    }
    match &rows[6] {
        ChunkDisplayLine::Content { line_num, in_matched_chunk, is_match_line, .. } => {
            assert_eq!(*line_num, 6);
            assert!(!*in_matched_chunk);
            assert!(!*is_match_line);
        }
        _ => panic!("expected content"),
    }
}

#[test]
fn chunks_open_before_the_window_are_carried_in() {
    let lines = numbered_lines(10);
    let chunks = vec![meta(1, 10, Some("function")), meta(2, 5, Some("class"))];
    let rows = collect_chunk_display_lines(&lines, 3, 6, 4, None, &chunks, true);
    let c = contents(&rows);
    let got: Vec<(usize, &str)> = c.iter().map(|x| (x.0, x.1.as_str())).collect();
    assert_eq!(got, vec![(4, "││"), (5, "│└"), (6, "│ ")]);
}

#[test]
fn files_without_chunks_mark_definition_lines() {
    let lines: Vec<String> = vec!["func process() {".to_string(), "  x := 1".to_string(), "}".to_string()];
    let rows = collect_chunk_display_lines(&lines, 0, 3, 2, None, &[], false);
    assert_eq!(rows.len(), 3);
    let c = contents(&rows);
    assert_eq!(c[0].1, "┣━");
    assert!(c[0].3);
    assert_eq!(c[1].1, "");
    assert!(!c[1].3);
    assert_eq!(c[2].1, "");
    assert!(!c[2].3);
}

#[test]
fn indented_definitions_are_boundaries() {
    let lines: Vec<String> = vec![
        "    def run(self):".to_string(),
        "\tstruct Point {".to_string(),
        "enumerate()".to_string(),
        "impl Foo {".to_string(),
    ];
    let rows = collect_chunk_display_lines(&lines, 0, 4, 0, None, &[], false);
    let flags: Vec<bool> = contents(&rows).into_iter().map(|c| c.3).collect();
    assert_eq!(flags, vec![true, true, false, true]);
}

#[test]
fn message_when_no_chunk_matched() {
    let lines = numbered_lines(3);
    let chunks = vec![meta(1, 2, Some("function"))];
    let rows = collect_chunk_display_lines(&lines, 0, 3, 1, None, &chunks, false);
    assert_eq!(rows.len(), 4);
    match rows.last().unwrap() {
        ChunkDisplayLine::Message(m) => {
            assert_eq!(m, "Chunk metadata available but no matching chunk found for this line.")
        }
        _ => panic!("expected the message last"),
    }
    let full = collect_chunk_display_lines(&lines, 0, 3, 1, None, &chunks, true);
    assert_eq!(full.len(), 3);
    assert!(full.iter().all(|r| !matches!(r, ChunkDisplayLine::Message(_))));
}

#[test]
fn no_message_without_chunks() {
    let lines = numbered_lines(2);
    let rows = collect_chunk_display_lines(&lines, 0, 2, 1, None, &[], false);
    assert_eq!(rows.len(), 2);
}

#[test]
fn text_chunks_overlay_the_first_column() {
    let lines = numbered_lines(6);
    let chunks = vec![
        meta(1, 3, Some("text")),
        meta(4, 6, Some("function")),
        meta(5, 5, Some("text")),
        meta(6, 6, Some("text")),
    ];
    let rows = collect_chunk_display_lines(&lines, 0, 6, 0, None, &chunks, true);
    let c = contents(&rows);
    let got: Vec<(&str, bool)> = c.iter().map(|x| (x.1.as_str(), x.3)).collect();
    assert_eq!(got, vec![("┌", true), ("│", true), ("└", true), ("┌", true), ("│", true), ("└", true)]);
}

#[test]
fn single_line_text_chunk_uses_a_dot() {
    let lines = numbered_lines(3);
    let chunks = vec![meta(2, 2, Some("text"))];
    let rows = collect_chunk_display_lines(&lines, 0, 3, 0, None, &chunks, true);
    let c = contents(&rows);
    let got: Vec<(&str, bool)> = c.iter().map(|x| (x.1.as_str(), x.3)).collect();
    assert_eq!(got, vec![(" ", false), ("·", true), (" ", false)]);
}

#[test]
fn label_with_breadcrumb_and_tokens() {
    let mut m = meta(2, 4, Some("function"));
    m.breadcrumb = Some("Parser::parse".to_string());
    m.estimated_tokens = Some(42);
    assert_eq!(chunk_label_text(&m), "function (Parser::parse)  • 42 tokens");
}

#[test]
fn label_falls_back_to_ancestry() {
    let mut m = meta(2, 4, Some("method"));
    m.breadcrumb = Some(String::new());
    m.ancestry = vec!["outer".to_string(), "Inner".to_string(), "go".to_string()];
    assert_eq!(chunk_label_text(&m), "method (outer::Inner::go)");
}

#[test]
fn label_of_untyped_chunk() {
    let mut m = meta(2, 4, None);
    m.estimated_tokens = Some(7);
    assert_eq!(chunk_label_text(&m), "chunk  • 7 tokens");
    let bare = meta(1, 1, None);
    assert_eq!(chunk_label_text(&bare), "chunk");
}

#[test]
fn label_row_is_indented_past_the_rail() {
    let lines = numbered_lines(4);
    let mut m = meta(2, 3, Some("class"));
    m.estimated_tokens = Some(1200);
    let chunks = vec![meta(1, 4, Some("module")), m.clone()];
    let rows = collect_chunk_display_lines(&lines, 0, 4, 2, Some(&m), &chunks, false);
    let texts: Vec<String> = rows.iter().map(chunk_display_line_to_string).collect();
    assert_eq!(
        texts,
        vec![
            "┌     1 | line 1",
            "  class  • 1200 tokens",
            "│┌    2 | line 2",
            "│└    3 | line 3",
            "└     4 | line 4",
        ]
    );
}

#[test]
fn render_rows_as_text() {
    let label = ChunkDisplayLine::Label { prefix: 3, text: "function".to_string() };
    assert_eq!(chunk_display_line_to_string(&label), "   function");
    let content = ChunkDisplayLine::Content {
        columns: vec![
            ChunkColumnChar { ch: '│', is_match: false },
            ChunkColumnChar { ch: ' ', is_match: false },
        ],
        line_num: 12345,
        text: "let x = 1;".to_string(),
        is_match_line: false,
        in_matched_chunk: false,
        has_any_chunk: true,
    };
    assert_eq!(chunk_display_line_to_string(&content), "│  12345 | let x = 1;");
    let short = ChunkDisplayLine::Content {
        columns: Vec::new(),
        line_num: 7,
        text: String::new(),
        is_match_line: true,
        in_matched_chunk: false,
        has_any_chunk: false,
    };
    assert_eq!(chunk_display_line_to_string(&short), "    7 | ");
    let msg = ChunkDisplayLine::Message("note".to_string());
    assert_eq!(chunk_display_line_to_string(&msg), "note");
}

#[test]
fn convert_engine_chunks() {
    let chunk = Chunk {
        span: Span { line_start: 3, line_end: 9 },
        chunk_type: ChunkType::TypeSpec,
        metadata: ChunkMetadata {
            breadcrumb: Some("mod::Thing".to_string()),
            ancestry: vec!["mod".to_string()],
            byte_length: 120,
            estimated_tokens: 30,
            leading_trivia: vec!["/// doc".to_string()],
            trailing_trivia: Vec::new(),
        },
    };
    let text = Chunk {
        span: Span { line_start: 1, line_end: 2 },
        chunk_type: ChunkType::Text,
        metadata: ChunkMetadata {
            breadcrumb: None,
            ancestry: Vec::new(),
            byte_length: 10,
            estimated_tokens: 3,
            leading_trivia: Vec::new(),
            trailing_trivia: Vec::new(),
        },
    };
    let metas = convert_chunks_to_meta(vec![chunk, text]);
    assert_eq!(metas.len(), 2);
    assert_eq!(metas[0].span, Span { line_start: 3, line_end: 9 });
    assert_eq!(metas[0].chunk_type.as_deref(), Some("typespec"));
    assert_eq!(metas[0].breadcrumb.as_deref(), Some("mod::Thing"));
    assert_eq!(metas[0].ancestry, vec!["mod".to_string()]);
    assert_eq!(metas[0].byte_length, Some(120));
    assert_eq!(metas[0].estimated_tokens, Some(30));
    assert_eq!(metas[0].leading_trivia, Some(vec!["/// doc".to_string()]));
    assert_eq!(metas[0].trailing_trivia, Some(Vec::new()));
    assert_eq!(metas[1].chunk_type.as_deref(), Some("text"));
    assert_eq!(metas[1].breadcrumb, None);
}

#[test]
fn split_text_into_lines() {
    assert_eq!(split_lines("a\nb\r\n\nc"), vec!["a", "b", "", "c"]);
    assert_eq!(split_lines("one\n"), vec!["one"]);
    assert_eq!(split_lines("\n"), vec![""]);
    assert!(split_lines("").is_empty());
    assert_eq!(split_lines("héllo\r\nwörld\n"), vec!["héllo", "wörld"]);
}
