//! Rows of bytes: offset, hexadecimal digits, characters.

use crate::text;
use crate::tui::line::{Line, Style};
use vstd::prelude::*;

verus! {

/// An offset, with at least eight hexadecimal digits.
pub fn format_offset(offset: u64) -> (s: String)
    ensures
        s@ == text::hex(offset as nat, 8),
{
    let mut s = String::new();
    text::push_hex(&mut s, offset, 8);
    assert(s@ =~= text::hex(offset as nat, 8));
    s
}

/// A byte, with two hexadecimal digits.
pub fn format_byte_hex(byte: u8) -> (s: String)
    ensures
        s@ == text::hex(byte as nat, 2),
{
    let mut s = String::new();
    text::push_hex(&mut s, byte as u64, 2);
    assert(s@ =~= text::hex(byte as nat, 2));
    s
}

/// The character that stands for a byte.
pub open spec fn ascii(byte: u8) -> char {
    if 0x20 <= byte <= 0x7E {
        byte as char
    } else {
        '·'
    }
}

/// A byte as a character: a dot where it is not a printable one of ASCII.
pub fn format_byte_ascii(byte: u8) -> (c: char)
    ensures
        c == ascii(byte),
{
    if 0x20 <= byte && byte <= 0x7E {
        byte as char
    } else {
        '·'
    }
}

/// A row of bytes, each with whether it stands out.
pub struct HexRow {
    pub offset: String,
    pub hex_parts: Vec<(String, bool)>,
    pub ascii_parts: Vec<(char, bool)>,
}

/// How what stands out looks, and what does not.
pub open spec fn shade(stands_out: bool) -> Style {
    if stands_out {
        Style::Reversed
    } else {
        Style::Plain
    }
}

impl HexRow {
    /// The row as pieces of text: offset, hexadecimal digits, a gap and
    /// characters.
    pub open spec fn pieces(&self) -> Seq<(Seq<char>, Style)> {
        seq![(self.offset@ + "  "@, Style::Plain)] + self.hex_parts@.map_values(
            |p: (String, bool)| (p.0@ + " "@, shade(p.1)),
        ) + seq![(" "@, Style::Plain)] + self.ascii_parts@.map_values(
            |p: (char, bool)| (seq![p.0], shade(p.1)),
        )
    }

    /// The row as a line: `00000000  48 65 6C 6C 6F  Hello`.
    pub fn to_line(&self) -> (line: Line)
        ensures
            line@ == self.pieces(),
    {
        let ghost hexes = self.hex_parts@.map_values(
            |p: (String, bool)| (p.0@ + " "@, shade(p.1)),
        );
        let ghost letters = self.ascii_parts@.map_values(
            |p: (char, bool)| (seq![p.0], shade(p.1)),
        );
        let mut line = Line::new();
        let mut head = self.offset.clone();
        head.append("  ");
        line.push(head, Style::Plain);
        let ghost start = line@;
        let mut i: usize = 0;
        while i < self.hex_parts.len()
            invariant
                i <= self.hex_parts@.len(),
                hexes == self.hex_parts@.map_values(
                    |p: (String, bool)| (p.0@ + " "@, shade(p.1)),
                ),
                line@ == start + hexes.take(i as int),
            decreases self.hex_parts@.len() - i,
        {
            let mut digits = self.hex_parts[i].0.clone();
            digits.append(" ");
            let style = if self.hex_parts[i].1 { Style::Reversed } else { Style::Plain };
            line.push(digits, style);
            i = i + 1;
            assert(line@ =~= start + hexes.take(i as int));
        }
        line.push(" ".to_string(), Style::Plain);
        let ghost middle = line@;
        let mut j: usize = 0;
        while j < self.ascii_parts.len()
            invariant
                j <= self.ascii_parts@.len(),
                letters == self.ascii_parts@.map_values(
                    |p: (char, bool)| (seq![p.0], shade(p.1)),
                ),
                line@ == middle + letters.take(j as int),
            decreases self.ascii_parts@.len() - j,
        {
            let mut letter = String::new();
            letter.push(self.ascii_parts[j].0);
            let style = if self.ascii_parts[j].1 { Style::Reversed } else { Style::Plain };
            assert(letter@ =~= seq![self.ascii_parts@[j as int].0]);
            line.push(letter, style);
            j = j + 1;
            assert(line@ =~= middle + letters.take(j as int));
        }
        assert(line@ =~= self.pieces());
        line
    }
}

/// The byte at `i` of a row stands out: the cursor is on it or it is in one of
/// `ranges`.
pub open spec fn stands_out(i: int, cursor: Option<usize>, ranges: Seq<(usize, usize)>) -> bool {
    ||| cursor matches Some(c) && c == i
    ||| exists|k: int| 0 <= k < ranges.len() && (#[trigger] ranges[k]).0 <= i < ranges[k].1
}

fn is_marked(i: usize, cursor: Option<usize>, ranges: &[(usize, usize)]) -> (b: bool)
    ensures
        b == stands_out(i as int, cursor, ranges@),
{
    if let Some(c) = cursor {
        if c == i {
            return true;
        }
    }
    let mut k: usize = 0;
    while k < ranges.len()
        invariant
            k <= ranges@.len(),
            forall|m: int|
                0 <= m < k ==> !((#[trigger] ranges@[m]).0 <= i < ranges@[m].1),
        decreases ranges@.len() - k,
    {
        let (from, to) = ranges[k];
        if from <= i && i < to {
            assert(ranges@[k as int].0 <= i < ranges@[k as int].1);
            return true;
        }
        k = k + 1;
    }
    false
}

/// A row of `bytes_per_row` bytes, with blanks where `bytes` has fewer.
pub fn render_hex_row(
    offset: u64,
    bytes: &[u8],
    bytes_per_row: usize,
    cursor_byte_index: Option<usize>,
    search_ranges: &[(usize, usize)],
) -> (row: HexRow)
    ensures
        row.offset@ == text::hex(offset as nat, 8),
        row.hex_parts@.len() == bytes_per_row,
        row.ascii_parts@.len() == bytes_per_row,
        forall|i: int|
            0 <= i < bytes_per_row && i < bytes@.len() ==> {
                let mark = stands_out(i, cursor_byte_index, search_ranges@);
                &&& (#[trigger] row.hex_parts@[i]).0@ == text::hex(bytes@[i] as nat, 2)
                &&& row.hex_parts@[i].1 == mark
                &&& row.ascii_parts@[i] == (ascii(bytes@[i]), mark)
            },
        forall|i: int|
            bytes@.len() <= i < bytes_per_row ==> {
                &&& (#[trigger] row.hex_parts@[i]).0@ == "  "@
                &&& !row.hex_parts@[i].1
                &&& row.ascii_parts@[i] == (' ', false)
            },
{
    let mut hex_parts: Vec<(String, bool)> = Vec::new();
    let mut ascii_parts: Vec<(char, bool)> = Vec::new();
    let mut i: usize = 0;
    while i < bytes_per_row
        invariant
            i <= bytes_per_row,
            hex_parts@.len() == i,
            ascii_parts@.len() == i,
            forall|k: int|
                0 <= k < i && k < bytes@.len() ==> {
                    let mark = stands_out(k, cursor_byte_index, search_ranges@);
                    &&& (#[trigger] hex_parts@[k]).0@ == text::hex(bytes@[k] as nat, 2)
                    &&& hex_parts@[k].1 == mark
                    &&& ascii_parts@[k] == (ascii(bytes@[k]), mark)
                },
            forall|k: int|
                bytes@.len() <= k < i ==> {
                    &&& (#[trigger] hex_parts@[k]).0@ == "  "@
                    &&& !hex_parts@[k].1
                    &&& ascii_parts@[k] == (' ', false)
                },
        decreases bytes_per_row - i,
    {
        if i < bytes.len() {
            let byte: u8 = bytes[i];
            let mark = is_marked(i, cursor_byte_index, search_ranges);
            hex_parts.push((format_byte_hex(byte), mark));
            ascii_parts.push((format_byte_ascii(byte), mark));
        } else {
            hex_parts.push(("  ".to_string(), false));
            ascii_parts.push((' ', false));
        }
        i = i + 1;
    }
    HexRow { offset: format_offset(offset), hex_parts, ascii_parts }
}

} // verus!
