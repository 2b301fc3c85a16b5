//! Plain-text form of a display row.
use vstd::prelude::*;
use vstd::string::*;
use crate::display::{ChunkDisplayLine, DisplayRow};
use crate::text::{decimal, pad_left, repeat, push_char, push_decimal, push_repeat, push_str};

verus! {

/// The symbols of a row's columns, left to right.
pub open spec fn column_symbols(columns: Seq<crate::display::ChunkColumnChar>) -> Seq<char> {
    columns.map_values(|c: crate::display::ChunkColumnChar| c.ch)
}

/// A row as one line of text: a header is indented by its prefix; a content
/// row is its column symbols, a space, the line number right-aligned in four
/// characters, ` | ` and the line's text; a message stands as it is.
pub open spec fn render_row(r: DisplayRow) -> Seq<char> {
    match r {
        DisplayRow::Label { prefix, text } => repeat(' ', prefix as nat) + text,
        DisplayRow::Content { columns, line_num, text, .. } => column_symbols(columns) + seq![' ']
            + pad_left(decimal(line_num as nat), 4) + " | "@ + text,
        DisplayRow::Message(m) => m,
    }
}

/// Renders one display row as plain text.
pub fn chunk_display_line_to_string(line: &ChunkDisplayLine) -> (r: String)
    ensures
        r@ == render_row(line@),
{
    match line {
        ChunkDisplayLine::Label { prefix, text } => {
            let mut out = String::new();
            push_repeat(&mut out, ' ', *prefix);
            push_str(&mut out, text.as_str());
            out
        },
        ChunkDisplayLine::Content { columns, line_num, text, .. } => {
            let mut out = String::new();
            let mut i: usize = 0;
            while i < columns.len()
                invariant
                    i <= columns@.len(),
                    out@ == column_symbols(columns@.subrange(0, i as int)),
                decreases columns.len() - i,
            {
                push_char(&mut out, columns[i].ch);
                i = i + 1;
                assert(out@ =~= column_symbols(columns@.subrange(0, i as int)));
            }
            assert(columns@.subrange(0, i as int) =~= columns@);
            push_char(&mut out, ' ');
            let mut digits = String::new();
            push_decimal(&mut digits, *line_num);
            assert(digits@ =~= decimal(*line_num as nat));
            let n = digits.as_str().unicode_len();
            if n < 4 {
                push_repeat(&mut out, ' ', 4 - n);
            }
            push_str(&mut out, digits.as_str());
            push_str(&mut out, " | ");
            push_str(&mut out, text.as_str());
            assert(out@ =~= render_row(line@));
            out
        },
        ChunkDisplayLine::Message(msg) => msg.clone(),
    }
}

} // verus!
